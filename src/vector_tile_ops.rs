//! The vector-tile geometry command stream: zig-zag coordinates, command
//! words, decoding into points, lines and rings, clipping, re-encoding, and
//! the overzoom rescale.
use crate::geom::{LineString, Point, Polygon};
use crate::lineclip::{
    fits_i32, lineclip, lineclip_spec, lines_view, polygonclip, polygonclip_spec, valid_bbox, BoundingBox,
};
use vstd::prelude::*;

verus! {

/// Zig-zag encoding: 0, -1, 1, -2, ... map to 0, 1, 2, 3, ...
pub open spec fn zz_enc_spec(n: int) -> int {
    if n >= 0 {
        2 * n
    } else {
        -2 * n - 1
    }
}

/// The inverse of zig-zag encoding.
pub open spec fn zz_dec_spec(u: int) -> int {
    if u % 2 == 0 {
        u / 2
    } else {
        -(u / 2) - 1
    }
}

/// Zig-zag encodes a signed value, `(n << 1) ^ (n >> 31)`.
pub fn zz_enc(n: i32) -> (r: u32)
    ensures
        r == zz_enc_spec(n as int),
{
    if n >= 0 {
        (n as u32) * 2
    } else {
        ((-(n + 1)) as u32) * 2 + 1
    }
}

/// Zig-zag decodes an unsigned value, `(u >> 1) ^ -(u & 1)`.
pub fn zz_dec(n: u32) -> (r: i32)
    ensures
        r == zz_dec_spec(n as int),
{
    if n % 2 == 0 {
        (n / 2) as i32
    } else {
        -((n / 2) as i32) - 1
    }
}

/// Zig-zag decoding undoes encoding on every `i32`, and encoding undoes
/// decoding on every `u32`.
pub proof fn lemma_zigzag_round_trip(n: i32, u: u32)
    ensures
        zz_dec_spec(zz_enc_spec(n as int)) == n,
        zz_enc_spec(zz_dec_spec(u as int)) == u,
        0 <= zz_enc_spec(n as int) <= u32::MAX,
        i32::MIN <= zz_dec_spec(u as int) <= i32::MAX,
{
}

/// A command word: its id in the low three bits, its repeat count above them.
#[derive(Debug, Clone, Copy, PartialEq, Eq, Structural)]
pub struct Command {
    pub id: u8,
    pub count: u32,
}

pub const MOVE_TO: u8 = 1;

pub const LINE_TO: u8 = 2;

pub const CLOSE_PATH: u8 = 7;

/// The word that encodes command `id` repeated `count` times; only the low
/// three bits of the id and the low 29 bits of the count fit.
pub open spec fn command_word(id: int, count: int) -> u32 {
    (id % 8 + (count % 0x2000_0000) * 8) as u32
}

/// Splits a command word into its id and count.
pub fn parse_command(value: u32) -> (r: Command)
    ensures
        r.id == value % 8,
        r.count == value / 8,
{
    assert(value & 7 == value % 8 && value >> 3 == value / 8) by (bit_vector);
    Command { id: (value & 0x7) as u8, count: value >> 3 }
}

/// Packs a command into its word, `(id & 7) | (count << 3)`.
pub fn encode_command(cmd: Command) -> (r: u32)
    ensures
        r == command_word(cmd.id as int, cmd.count as int),
{
    let raw_id = cmd.id;
    let id = (raw_id & 0x7) as u32;
    let count = cmd.count;
    assert(raw_id & 7 == raw_id % 8) by (bit_vector);
    assert(id < 8 ==> (id | (count << 3)) == id + (count % 0x2000_0000) * 8) by (bit_vector);
    id | (count << 3)
}

/// Packing a command whose id fits in three bits and whose count fits in 29
/// bits, then splitting the word, gives the command back.
pub proof fn lemma_command_round_trip(id: u8, count: u32)
    requires
        id <= 7,
        count < 0x2000_0000,
    ensures
        command_word(id as int, count as int) % 8 == id,
        command_word(id as int, count as int) / 8 == count,
{
}

pub open spec fn in_square(p: Point, min: i32, max: i32) -> bool {
    min <= p.x <= max && min <= p.y <= max
}

/// The points of `s` inside the square `[min, max]²`, in order.
pub open spec fn points_within(s: Seq<Point>, min: i32, max: i32) -> Seq<Point>
    decreases s.len(),
{
    if s.len() == 0 {
        seq![]
    } else {
        let rest = points_within(s.drop_last(), min, max);
        if in_square(s.last(), min, max) {
            rest.push(s.last())
        } else {
            rest
        }
    }
}

/// Keeps the points inside the square `[min, max]²`, in order.
pub fn clip_points_to_bbox(points: Vec<Point>, min: i32, max: i32) -> (r: Vec<Point>)
    ensures
        r@ == points_within(points@, min, max),
{
    let mut out: Vec<Point> = Vec::new();
    let n = points.len();
    let mut i: usize = 0;
    while i < n
        invariant
            n == points@.len(),
            0 <= i <= n,
            out@ == points_within(points@.subrange(0, i as int), min, max),
        decreases n - i,
    {
        let p = points[i];
        assert(points@.subrange(0, i + 1).drop_last() =~= points@.subrange(0, i as int));
        if min <= p.x && p.x <= max && min <= p.y && p.y <= max {
            out.push(p);
        }
        i = i + 1;
    }
    assert(points@.subrange(0, n as int) =~= points@);
    out
}

/// Geometry types of a vector-tile feature.
pub const GEOM_POINT: i32 = 1;

pub const GEOM_LINESTRING: i32 = 2;

pub const GEOM_POLYGON: i32 = 3;

/// Why a geometry could not be processed.
#[derive(Debug, Clone, Copy, PartialEq, Eq, Structural)]
pub enum GeometryError {
    /// The feature's type is none of point, linestring, polygon.
    UnknownGeometryType,
    /// The command stream holds an unknown command, stops inside a command's
    /// coordinates, or moves the cursor outside the `i32` range.
    Malformed,
    /// Two consecutive points are too far apart for their delta to be written.
    DeltaOverflow,
    /// The layer's clip box does not fit in `i32` coordinates.
    ExtentTooLarge,
}


/// The point that a coordinate pair moves the cursor to.
pub open spec fn moved(cx: int, cy: int, g: Seq<u32>, i: int) -> (int, int) {
    (cx + zz_dec_spec(g[i] as int), cy + zz_dec_spec(g[i + 1] as int))
}

/// Decodes the command stream `g` from word `i` on. The decoder is inside a
/// command `id` with `pending` coordinate pairs left; `(cx, cy)` is the cursor,
/// shared by all commands of the feature; `buf` is the subpath being built;
/// `pts` and `parts` are what was collected. Points collect every pair under a
/// MoveTo. Linestrings start a subpath at each MoveTo, flushing the previous
/// one if it holds points, extend it at each LineTo, and flush the last one at
/// the end. Polygons build a ring the same way and collect it at ClosePath.
pub open spec fn decode_from(
    gt: i32,
    g: Seq<u32>,
    i: int,
    id: int,
    pending: int,
    cx: int,
    cy: int,
    buf: Seq<Point>,
    pts: Seq<Point>,
    parts: Seq<Seq<Point>>,
) -> Option<(Seq<Point>, Seq<Seq<Point>>)>
    decreases g.len() - i,
{
    if i < 0 {
        None
    } else if pending > 0 {
        if i + 1 >= g.len() {
            None
        } else {
            let np = moved(cx, cy, g, i);
            if !(fits_i32(np.0) && fits_i32(np.1)) {
                None
            } else {
                let p = Point { x: np.0 as i32, y: np.1 as i32 };
                let pts2 = if gt == GEOM_POINT && id == 1 {
                    pts.push(p)
                } else {
                    pts
                };
                let buf2 = if gt == GEOM_LINESTRING || gt == GEOM_POLYGON {
                    if id == 1 {
                        seq![p]
                    } else {
                        buf.push(p)
                    }
                } else {
                    buf
                };
                let parts2 = if gt == GEOM_LINESTRING && id == 1 && buf.len() > 0 {
                    parts.push(buf)
                } else {
                    parts
                };
                decode_from(gt, g, i + 2, id, pending - 1, np.0, np.1, buf2, pts2, parts2)
            }
        }
    } else if i >= g.len() {
        Some(
            (
                pts,
                if gt == GEOM_LINESTRING && buf.len() > 0 {
                    parts.push(buf)
                } else {
                    parts
                },
            ),
        )
    } else {
        let cid = g[i] % 8;
        let count = g[i] / 8;
        if cid == 1 || cid == 2 {
            decode_from(gt, g, i + 1, cid as int, count as int, cx, cy, buf, pts, parts)
        } else if cid == 7 {
            if gt == GEOM_POLYGON {
                decode_from(gt, g, i + 1, id, 0, cx, cy, seq![], pts, parts.push(buf))
            } else {
                decode_from(gt, g, i + 1, id, 0, cx, cy, buf, pts, parts)
            }
        } else {
            None
        }
    }
}

/// The points (for the point type) and the subpaths (linestrings or rings)
/// that a command stream describes, or `None` when it is malformed.
pub open spec fn decode_spec(gt: i32, g: Seq<u32>) -> Option<(Seq<Point>, Seq<Seq<Point>>)> {
    decode_from(gt, g, 0, 0, 0, 0, 0, seq![], seq![], seq![])
}

/// Decodes a command stream of a feature of type `geom_type` (point,
/// linestring or polygon) into its points and its subpaths.
pub fn decode_geometry(geom_type: i32, geometry: &[u32]) -> (r: Option<(Vec<Point>, Vec<LineString>)>)
    ensures
        decode_spec(geom_type, geometry@) == (match r {
            Some(v) => Some((v.0@, lines_view(v.1@))),
            None => None,
        }),
{
    let n = geometry.len();
    let mut points: Vec<Point> = Vec::new();
    let mut parts: Vec<LineString> = Vec::new();
    let mut buf: Vec<Point> = Vec::new();
    let mut cursor_x: i32 = 0;
    let mut cursor_y: i32 = 0;
    let mut id: u8 = 0;
    let mut pending: u32 = 0;
    let mut i: usize = 0;
    assert(lines_view(parts@) =~= seq![]);
    while pending > 0 || i < n
        invariant
            n == geometry@.len(),
            0 <= i <= n,
            pending > 0 ==> id == 1 || id == 2,
            decode_from(geom_type, geometry@, i as int, id as int, pending as int, cursor_x as int,
                cursor_y as int, buf@, points@, lines_view(parts@)) == decode_spec(geom_type, geometry@),
        decreases n + 2 - i,
    {
        if pending > 0 {
            if n - i < 2 {
                return None;
            }
            let nx = cursor_x as i64 + zz_dec(geometry[i]) as i64;
            let ny = cursor_y as i64 + zz_dec(geometry[i + 1]) as i64;
            if nx < i32::MIN as i64 || nx > i32::MAX as i64 || ny < i32::MIN as i64 || ny > i32::MAX as i64 {
                return None;
            }
            cursor_x = nx as i32;
            cursor_y = ny as i32;
            let p = Point { x: cursor_x, y: cursor_y };
            if geom_type == GEOM_POINT && id == MOVE_TO {
                points.push(p);
            }
            if geom_type == GEOM_LINESTRING || geom_type == GEOM_POLYGON {
                if id == MOVE_TO {
                    if geom_type == GEOM_LINESTRING && buf.len() > 0 {
                        let ghost old_parts = parts@;
                        parts.push(LineString { points: buf });
                        assert(lines_view(parts@) =~= lines_view(old_parts).push(parts@.last()@));
                    }
                    buf = vec![p];
                    assert(buf@ =~= seq![p]);
                } else {
                    buf.push(p);
                }
            }
            pending = pending - 1;
            i = i + 2;
        } else {
            let cmd = parse_command(geometry[i]);
            if cmd.id == MOVE_TO || cmd.id == LINE_TO {
                id = cmd.id;
                pending = cmd.count;
            } else if cmd.id == CLOSE_PATH {
                pending = 0;
                if geom_type == GEOM_POLYGON {
                    let ghost old_parts = parts@;
                    parts.push(LineString { points: buf });
                    assert(lines_view(parts@) =~= lines_view(old_parts).push(parts@.last()@));
                    buf = Vec::new();
                }
            } else {
                return None;
            }
            i = i + 1;
        }
    }
    if geom_type == GEOM_LINESTRING && buf.len() > 0 {
        let ghost old_parts = parts@;
        parts.push(LineString { points: buf });
        assert(lines_view(parts@) =~= lines_view(old_parts).push(parts@.last()@));
    }
    Some((points, parts))
}

/// The point before point `j` of `s`; the one before the first is `(cx, cy)`.
pub open spec fn prev_of(s: Seq<Point>, cx: int, cy: int, j: int) -> (int, int) {
    if j == 0 {
        (cx, cy)
    } else {
        (s[j - 1].x as int, s[j - 1].y as int)
    }
}

/// The delta from the point before point `j` to point `j` fits in an `i32`.
pub open spec fn delta_fits(s: Seq<Point>, cx: int, cy: int, j: int) -> bool {
    fits_i32(s[j].x - prev_of(s, cx, cy, j).0) && fits_i32(s[j].y - prev_of(s, cx, cy, j).1)
}

pub open spec fn deltas_fit(s: Seq<Point>, cx: int, cy: int) -> bool {
    forall|j: int| 0 <= j < s.len() ==> #[trigger] delta_fits(s, cx, cy, j)
}

/// The zig-zag words of the deltas of each point of `s` from the point before
/// it, starting from the cursor `(cx, cy)`: x then y for each point.
pub open spec fn delta_words(s: Seq<Point>, cx: int, cy: int) -> Seq<u32> {
    Seq::new(
        2 * s.len(),
        |k: int|
            if k % 2 == 0 {
                zz_enc_spec(s[k / 2].x - prev_of(s, cx, cy, k / 2).0) as u32
            } else {
                zz_enc_spec(s[k / 2].y - prev_of(s, cx, cy, k / 2).1) as u32
            },
    )
}

/// Points are written as one MoveTo for all of them, each point relative to
/// the one before, the first to the origin.
pub open spec fn encode_points_spec(pts: Seq<Point>) -> Seq<u32> {
    seq![command_word(1, pts.len() as u32 as int)] + delta_words(pts, 0, 0)
}

/// The cursor after writing the first `n` subpaths: the last point of the
/// last of them that holds points, or the origin.
pub open spec fn cursor_after(parts: Seq<Seq<Point>>, n: int) -> (int, int)
    decreases n,
{
    if n <= 0 {
        (0, 0)
    } else if parts[n - 1].len() > 0 {
        (parts[n - 1].last().x as int, parts[n - 1].last().y as int)
    } else {
        cursor_after(parts, n - 1)
    }
}

/// One subpath written from the cursor `c`: MoveTo 1 with its first point,
/// LineTo with the others, then ClosePath for a ring. An empty subpath writes
/// nothing.
pub open spec fn encode_part(part: Seq<Point>, c: (int, int), close: bool) -> Seq<u32> {
    if part.len() == 0 {
        seq![]
    } else {
        let w = delta_words(part, c.0, c.1);
        seq![command_word(1, 1)] + w.subrange(0, 2) + seq![
            command_word(2, (part.len() - 1) as u32 as int),
        ] + w.subrange(2, w.len() as int) + (if close {
            seq![command_word(7, 0)]
        } else {
            seq![]
        })
    }
}

/// The first `n` subpaths written one after the other, the cursor carried
/// across them.
pub open spec fn encode_parts_upto(parts: Seq<Seq<Point>>, n: int, close: bool) -> Seq<u32>
    decreases n,
{
    if n <= 0 {
        seq![]
    } else {
        encode_parts_upto(parts, n - 1, close) + encode_part(parts[n - 1], cursor_after(parts, n - 1), close)
    }
}

pub open spec fn parts_fit_upto(parts: Seq<Seq<Point>>, n: int) -> bool {
    forall|k: int|
        0 <= k < n ==> #[trigger] deltas_fit(parts[k], cursor_after(parts, k).0, cursor_after(parts, k).1)
}

/// Appends the delta words of points `from..to` of `s`, unless one of those
/// deltas does not fit in an `i32`.
fn append_deltas(out: &mut Vec<u32>, s: &Vec<Point>, from: usize, to: usize, cx: i32, cy: i32) -> (ok: bool)
    requires
        from <= to <= s@.len(),
    ensures
        ok == (forall|j: int| from <= j < to ==> #[trigger] delta_fits(s@, cx as int, cy as int, j)),
        ok ==> final(out)@ == old(out)@ + delta_words(s@, cx as int, cy as int).subrange(
            2 * from,
            2 * to,
        ),
{
    let ghost dw = delta_words(s@, cx as int, cy as int);
    let ghost start = out@;
    let mut j: usize = from;
    while j < to
        invariant
            from <= j <= to <= s@.len(),
            out@ == start + dw.subrange(2 * from, 2 * j),
            dw == delta_words(s@, cx as int, cy as int),
            forall|k: int| from <= k < j ==> #[trigger] delta_fits(s@, cx as int, cy as int, k),
        decreases to - j,
    {
        let (px, py) = if j == 0 {
            (cx, cy)
        } else {
            (s[j - 1].x, s[j - 1].y)
        };
        let dx = s[j].x as i64 - px as i64;
        let dy = s[j].y as i64 - py as i64;
        if dx < i32::MIN as i64 || dx > i32::MAX as i64 || dy < i32::MIN as i64 || dy > i32::MAX as i64 {
            assert(!delta_fits(s@, cx as int, cy as int, j as int));
            return false;
        }
        out.push(zz_enc(dx as i32));
        out.push(zz_enc(dy as i32));
        assert(dw[2 * j as int] == zz_enc_spec(dx as int) as u32);
        assert(dw[2 * j + 1] == zz_enc_spec(dy as int) as u32);
        assert(out@ =~= start + dw.subrange(2 * from, 2 * (j + 1)));
        j = j + 1;
    }
    true
}

/// Writes points as one MoveTo; `None` when two consecutive points are too far
/// apart.
fn encode_points(pts: &Vec<Point>) -> (r: Option<Vec<u32>>)
    ensures
        r is Some == deltas_fit(pts@, 0, 0),
        r is Some ==> r->0@ == encode_points_spec(pts@),
{
    let mut out: Vec<u32> = Vec::new();
    out.push(encode_command(Command { id: MOVE_TO, count: pts.len() as u32 }));
    let ok = append_deltas(&mut out, pts, 0, pts.len(), 0, 0);
    if ok {
        assert(delta_words(pts@, 0, 0).subrange(0, 2 * pts@.len() as int) =~= delta_words(pts@, 0, 0));
        Some(out)
    } else {
        None
    }
}

/// Writes subpaths one after the other, the cursor carried across them, each
/// ring closed when `close` holds; `None` when two consecutive points are too
/// far apart.
fn encode_parts(parts: &Vec<LineString>, close: bool) -> (r: Option<Vec<u32>>)
    ensures
        r is Some == parts_fit_upto(lines_view(parts@), parts@.len() as int),
        r is Some ==> r->0@ == encode_parts_upto(lines_view(parts@), parts@.len() as int, close),
{
    let ghost lv = lines_view(parts@);
    let mut out: Vec<u32> = Vec::new();
    let mut cx: i32 = 0;
    let mut cy: i32 = 0;
    let mut k: usize = 0;
    while k < parts.len()
        invariant
            lv == lines_view(parts@),
            0 <= k <= parts@.len(),
            (cx as int, cy as int) == cursor_after(lv, k as int),
            parts_fit_upto(lv, k as int),
            out@ == encode_parts_upto(lv, k as int, close),
        decreases parts@.len() - k,
    {
        let part = &parts[k].points;
        let n = part.len();
        let ghost before = out@;
        if n > 0 {
            out.push(encode_command(Command { id: MOVE_TO, count: 1 }));
            if !append_deltas(&mut out, part, 0, 1, cx, cy) {
                assert(!deltas_fit(lv[k as int], cx as int, cy as int));
                assert(!parts_fit_upto(lv, parts@.len() as int)) by {
                    if parts_fit_upto(lv, parts@.len() as int) {
                        assert(deltas_fit(lv[k as int], cursor_after(lv, k as int).0, cursor_after(lv, k as int).1));
                    }
                }
                return None;
            }
            out.push(encode_command(Command { id: LINE_TO, count: (n - 1) as u32 }));
            if !append_deltas(&mut out, part, 1, n, cx, cy) {
                assert(!deltas_fit(lv[k as int], cx as int, cy as int));
                assert(!parts_fit_upto(lv, parts@.len() as int)) by {
                    if parts_fit_upto(lv, parts@.len() as int) {
                        assert(deltas_fit(lv[k as int], cursor_after(lv, k as int).0, cursor_after(lv, k as int).1));
                    }
                }
                return None;
            }
            if close {
                out.push(encode_command(Command { id: CLOSE_PATH, count: 0 }));
            }
            assert forall|j: int| 0 <= j < n implies #[trigger] delta_fits(
                part@,
                cx as int,
                cy as int,
                j,
            ) by {
                if j >= 1 {
                    assert(delta_fits(part@, cx as int, cy as int, j));
                }
            }
            assert(out@ =~= before + encode_part(lv[k as int], (cx as int, cy as int), close));
            cx = part[n - 1].x;
            cy = part[n - 1].y;
        } else {
            assert(out@ =~= before + encode_part(lv[k as int], (cx as int, cy as int), close));
        }
        assert(parts_fit_upto(lv, k + 1));
        k = k + 1;
    }
    Some(out)
}

/// The cursor after a run of points written from `(cx, cy)`: its last point,
/// or `(cx, cy)` when it is empty.
pub open spec fn end_of(q: Seq<Point>, cx: int, cy: int) -> (int, int) {
    if q.len() == 0 {
        (cx, cy)
    } else {
        (q.last().x as int, q.last().y as int)
    }
}

proof fn lemma_delta_words_tail(q: Seq<Point>, cx: int, cy: int)
    requires
        q.len() > 0,
    ensures
        delta_words(q, cx, cy).subrange(2, 2 * q.len() as int) =~= delta_words(
            q.subrange(1, q.len() as int),
            q[0].x as int,
            q[0].y as int,
        ),
{
}

/// Reading the coordinate pairs of a MoveTo (for points) or LineTo (for
/// lines and rings) that were written as the deltas of `q` from `(cx, cy)`
/// collects the points of `q` and leaves the cursor at the last of them.
proof fn lemma_decode_run(
    gt: i32,
    g: Seq<u32>,
    j: int,
    id: int,
    q: Seq<Point>,
    cx: int,
    cy: int,
    buf: Seq<Point>,
    pts: Seq<Point>,
    acc: Seq<Seq<Point>>,
)
    requires
        (gt == GEOM_POINT && id == 1) || ((gt == GEOM_LINESTRING || gt == GEOM_POLYGON) && id == 2),
        0 <= j,
        j + 2 * q.len() <= g.len(),
        g.subrange(j, j + 2 * q.len()) == delta_words(q, cx, cy),
        deltas_fit(q, cx, cy),
    ensures
        decode_from(gt, g, j, id, q.len() as int, cx, cy, buf, pts, acc) == decode_from(
            gt,
            g,
            j + 2 * q.len(),
            id,
            0,
            end_of(q, cx, cy).0,
            end_of(q, cx, cy).1,
            if gt == GEOM_POINT { buf } else { buf + q },
            if gt == GEOM_POINT { pts + q } else { pts },
            acc,
        ),
    decreases q.len(),
{
    if q.len() > 0 {
        let w = delta_words(q, cx, cy);
        assert(g[j] == w[0]);
        assert(g[j + 1] == w[1]);
        assert(delta_fits(q, cx, cy, 0));
        lemma_zigzag_round_trip((q[0].x - cx) as i32, 0);
        lemma_zigzag_round_trip((q[0].y - cy) as i32, 0);
        let p = q[0];
        assert(moved(cx, cy, g, j) == (p.x as int, p.y as int));
        let rest = q.subrange(1, q.len() as int);
        lemma_delta_words_tail(q, cx, cy);
        assert(g.subrange(j + 2, j + 2 + 2 * rest.len()) =~= w.subrange(2, 2 * q.len() as int));
        assert forall|k: int| 0 <= k < rest.len() implies #[trigger] delta_fits(rest, p.x as int, p.y as int, k) by {
            assert(delta_fits(q, cx, cy, k + 1));
        }
        let buf2 = if gt == GEOM_POINT { buf } else { buf.push(p) };
        let pts2 = if gt == GEOM_POINT { pts.push(p) } else { pts };
        lemma_decode_run(gt, g, j + 2, id, rest, p.x as int, p.y as int, buf2, pts2, acc);
        assert(buf.push(p) + rest =~= buf + q);
        assert(pts.push(p) + rest =~= pts + q);
        if rest.len() == 0 {
            assert(end_of(q, cx, cy) == (p.x as int, p.y as int));
        } else {
            assert(rest.last() == q.last());
        }
    } else {
        assert(buf + q =~= buf);
        assert(pts + q =~= pts);
    }
}

/// A subpath that the writer can write as it is: at least one point, and
/// few enough for the LineTo count.
pub open spec fn writable_part(part: Seq<Point>) -> bool {
    0 < part.len() <= 0x2000_0000
}

/// Reading one written subpath from cursor `c`. A linestring's subpath stays
/// open in the buffer (the previous one, if any, is collected); a ring is
/// collected at its ClosePath.
proof fn lemma_decode_part(
    gt: i32,
    g: Seq<u32>,
    i: int,
    id: int,
    part: Seq<Point>,
    c: (int, int),
    buf: Seq<Point>,
    acc: Seq<Seq<Point>>,
)
    requires
        gt == GEOM_LINESTRING || gt == GEOM_POLYGON,
        gt == GEOM_POLYGON ==> buf.len() == 0,
        writable_part(part),
        deltas_fit(part, c.0, c.1),
        0 <= i,
        i + encode_part(part, c, gt == GEOM_POLYGON).len() <= g.len(),
        g.subrange(i, i + encode_part(part, c, gt == GEOM_POLYGON).len()) == encode_part(part, c, gt == GEOM_POLYGON),
    ensures
        decode_from(gt, g, i, id, 0, c.0, c.1, buf, seq![], acc) == decode_from(
            gt,
            g,
            i + encode_part(part, c, gt == GEOM_POLYGON).len(),
            2,
            0,
            part.last().x as int,
            part.last().y as int,
            if gt == GEOM_POLYGON { seq![] } else { part },
            seq![],
            if gt == GEOM_POLYGON { acc.push(part) } else if buf.len() > 0 { acc.push(buf) } else { acc },
        ),
{
    let close = gt == GEOM_POLYGON;
    let e = encode_part(part, c, close);
    let w = delta_words(part, c.0, c.1);
    let n = part.len() as int;
    assert forall|k: int| 0 <= k < e.len() implies g[i + k] == #[trigger] e[k] by {
        assert(g.subrange(i, i + e.len())[k] == g[i + k]);
    }
    assert(e[0] == command_word(1, 1));
    assert(e[1] == w[0] && e[2] == w[1]);
    assert(e[3] == command_word(2, (n - 1) as u32 as int));
    assert(g[i] == e[0]);
    assert(g[i + 1] == w[0] && g[i + 2] == w[1]);
    assert(g[i + 3] == command_word(2, (n - 1) as u32 as int));
    assert(command_word(2, (n - 1) as u32 as int) % 8 == 2);
    assert(command_word(2, (n - 1) as u32 as int) / 8 == n - 1);
    // the MoveTo and its point
    assert(delta_fits(part, c.0, c.1, 0));
    lemma_zigzag_round_trip((part[0].x - c.0) as i32, 0);
    lemma_zigzag_round_trip((part[0].y - c.1) as i32, 0);
    let p = part[0];
    assert(moved(c.0, c.1, g, i + 1) == (p.x as int, p.y as int));
    let acc1 = if gt == GEOM_LINESTRING && buf.len() > 0 { acc.push(buf) } else { acc };
    // the LineTo and the other points
    let rest = part.subrange(1, n);
    lemma_delta_words_tail(part, c.0, c.1);
    assert forall|k: int| 0 <= k < 2 * rest.len() implies g.subrange(i + 4, i + 4 + 2 * rest.len())[k] == #[trigger] w.subrange(2, 2 * n)[k] by {
        assert(e[4 + k] == w[2 + k]);
        assert(g[i + 4 + k] == e[4 + k]);
    }
    assert(g.subrange(i + 4, i + 4 + 2 * rest.len()) =~= w.subrange(2, 2 * n));
    assert forall|k: int| 0 <= k < rest.len() implies #[trigger] delta_fits(rest, p.x as int, p.y as int, k) by {
        assert(delta_fits(part, c.0, c.1, k + 1));
    }
    lemma_decode_run(gt, g, i + 4, 2, rest, p.x as int, p.y as int, seq![p], seq![], acc1);
    assert(seq![p] + rest =~= part);
    assert(seq![] + rest =~= rest);
    let end = end_of(rest, p.x as int, p.y as int);
    if rest.len() == 0 {
        assert(part.last() == p);
    } else {
        assert(rest.last() == part.last());
    }
    assert(end == (part.last().x as int, part.last().y as int));
    assert(command_word(1, 1) == 9);
    assert(decode_from(gt, g, i, id, 0, c.0, c.1, buf, seq![], acc) == decode_from(gt, g, i + 1, 1, 1, c.0, c.1, buf, seq![], acc));
    assert(decode_from(gt, g, i + 1, 1, 1, c.0, c.1, buf, seq![], acc) == decode_from(gt, g, i + 3, 1, 0, p.x as int, p.y as int, seq![p], seq![], acc1));
    assert(decode_from(gt, g, i + 3, 1, 0, p.x as int, p.y as int, seq![p], seq![], acc1) == decode_from(gt, g, i + 4, 2, n - 1, p.x as int, p.y as int, seq![p], seq![], acc1));
    let j = i + 4 + 2 * rest.len();
    if close {
        assert(e[4 + 2 * rest.len() as int] == command_word(7, 0));
        assert(g[j] == command_word(7, 0));
        assert(e.len() == j - i + 1);
        assert(decode_from(gt, g, j, 2, 0, end.0, end.1, part, seq![], acc1) == decode_from(gt, g, j + 1, 2, 0, end.0, end.1, seq![], seq![], acc1.push(part)));
    } else {
        assert(e.len() == j - i);
    }
}

/// Reading the first `k` written subpaths: the cursor is at the end of the
/// last of them; a linestring's last subpath is still open.
proof fn lemma_decode_parts_prefix(gt: i32, parts: Seq<Seq<Point>>, n: int, k: int)
    requires
        gt == GEOM_LINESTRING || gt == GEOM_POLYGON,
        0 < k <= n <= parts.len(),
        forall|m: int| 0 <= m < parts.len() ==> writable_part(#[trigger] parts[m]),
        parts_fit_upto(parts, n),
    ensures
        ({
            let g = encode_parts_upto(parts, n, gt == GEOM_POLYGON);
            decode_spec(gt, g) == decode_from(
                gt,
                g,
                encode_parts_upto(parts, k, gt == GEOM_POLYGON).len() as int,
                2,
                0,
                cursor_after(parts, k).0,
                cursor_after(parts, k).1,
                if gt == GEOM_POLYGON { seq![] } else { parts[k - 1] },
                seq![],
                if gt == GEOM_POLYGON { parts.subrange(0, k) } else { parts.subrange(0, k - 1) },
            )
        }),
    decreases k,
{
    let close = gt == GEOM_POLYGON;
    let g = encode_parts_upto(parts, n, close);
    lemma_encode_prefix(parts, k, n, close);
    let before = encode_parts_upto(parts, k - 1, close);
    let e = encode_part(parts[k - 1], cursor_after(parts, k - 1), close);
    let pk = encode_parts_upto(parts, k, close);
    assert(pk == before + e);
    assert forall|m: int| 0 <= m < e.len() implies g.subrange(before.len() as int, (before.len() + e.len()) as int)[m]
        == #[trigger] e[m] by {
        assert(g.subrange(0, pk.len() as int)[before.len() + m] == pk[before.len() + m]);
        assert(pk[before.len() + m] == e[m]);
    }
    assert(g.subrange(before.len() as int, (before.len() + e.len()) as int) =~= e);
    assert(deltas_fit(parts[k - 1], cursor_after(parts, k - 1).0, cursor_after(parts, k - 1).1));
    if k == 1 {
        assert(before.len() == 0);
        lemma_decode_part(gt, g, 0, 0, parts[0], (0, 0), seq![], seq![]);
        assert(parts.subrange(0, 1) =~= seq![parts[0]]);
        assert(parts.subrange(0, 0) =~= seq![]);
    } else {
        lemma_decode_parts_prefix(gt, parts, n, k - 1);
        let buf = if close { seq![] } else { parts[k - 2] };
        let acc = if close { parts.subrange(0, k - 1) } else { parts.subrange(0, k - 2) };
        lemma_decode_part(gt, g, before.len() as int, 2, parts[k - 1], cursor_after(parts, k - 1), buf, acc);
        assert(parts.subrange(0, k - 1).push(parts[k - 1]) =~= parts.subrange(0, k));
        assert(parts.subrange(0, k - 2).push(parts[k - 2]) =~= parts.subrange(0, k - 1));
    }
}

/// The words of the first `k` subpaths start the words of the first `n`.
proof fn lemma_encode_prefix(parts: Seq<Seq<Point>>, k: int, n: int, close: bool)
    requires
        0 <= k <= n,
    ensures
        encode_parts_upto(parts, k, close).len() <= encode_parts_upto(parts, n, close).len(),
        encode_parts_upto(parts, n, close).subrange(0, encode_parts_upto(parts, k, close).len() as int)
            == encode_parts_upto(parts, k, close),
    decreases n - k,
{
    if k < n {
        lemma_encode_prefix(parts, k, n - 1, close);
        let a = encode_parts_upto(parts, n - 1, close);
        let b = encode_parts_upto(parts, n, close);
        assert(b == a + encode_part(parts[n - 1], cursor_after(parts, n - 1), close));
        assert(b.subrange(0, a.len() as int) =~= a);
        assert(b.subrange(0, encode_parts_upto(parts, k, close).len() as int) =~= a.subrange(
            0,
            encode_parts_upto(parts, k, close).len() as int,
        ));
    } else {
        assert(encode_parts_upto(parts, n, close).subrange(0, encode_parts_upto(parts, n, close).len() as int)
            =~= encode_parts_upto(parts, n, close));
    }
}

/// Writing subpaths (linestrings, or rings when `polygon` holds) and reading
/// the words back gives the same subpaths. The writer carries the cursor
/// across subpaths exactly as the reader does.
pub proof fn lemma_parts_round_trip(parts: Seq<Seq<Point>>, polygon: bool)
    requires
        forall|m: int| 0 <= m < parts.len() ==> writable_part(#[trigger] parts[m]),
        parts_fit_upto(parts, parts.len() as int),
    ensures
        decode_spec(
            if polygon { GEOM_POLYGON } else { GEOM_LINESTRING },
            encode_parts_upto(parts, parts.len() as int, polygon),
        ) == Some((Seq::<Point>::empty(), parts)),
{
    let gt = if polygon { GEOM_POLYGON } else { GEOM_LINESTRING };
    let n = parts.len() as int;
    let g = encode_parts_upto(parts, n, polygon);
    if n == 0 {
        assert(g.len() == 0);
        assert(parts =~= seq![]);
    } else {
        lemma_decode_parts_prefix(gt, parts, n, n);
        assert(parts.subrange(0, n) =~= parts);
        assert(parts.subrange(0, n - 1).push(parts[n - 1]) =~= parts);
    }
}

/// Writing points and reading the words back gives the same points.
pub proof fn lemma_points_round_trip(pts: Seq<Point>)
    requires
        pts.len() < 0x2000_0000,
        deltas_fit(pts, 0, 0),
    ensures
        decode_spec(GEOM_POINT, encode_points_spec(pts)) == Some((pts, Seq::<Seq<Point>>::empty())),
{
    let g = encode_points_spec(pts);
    let w = delta_words(pts, 0, 0);
    assert(g[0] == command_word(1, pts.len() as u32 as int));
    assert(g[0] % 8 == 1 && g[0] / 8 == pts.len());
    assert(g.subrange(1, 1 + 2 * pts.len() as int) =~= w);
    lemma_decode_run(GEOM_POINT, g, 1, 1, pts, 0, 0, seq![], seq![], seq![]);
    assert(seq![] + pts =~= pts);
}

/// How many bits right the extent is shifted to get the clip buffer: a layer
/// of extent 4096 keeps a margin of 256 around the tile.
pub const CLIP_BUFFER: u32 = 4;

/// The clip box of a layer of the given extent: the tile square widened on
/// every side by `extent >> 4`.
pub open spec fn clip_box(extent: u32) -> BoundingBox {
    let buffer = extent / 16;
    (-buffer as i32, -buffer as i32, (extent + buffer) as i32, (extent + buffer) as i32)
}

/// An extent whose clip box fits in `i32` coordinates.
pub open spec fn extent_ok(extent: u32) -> bool {
    extent + extent / 16 <= i32::MAX
}

/// The polylines that clipping each of the first `n` lines gives, in order.
pub open spec fn clip_lines_upto(lines: Seq<Seq<Point>>, bbox: BoundingBox, n: int) -> Seq<Seq<Point>>
    decreases n,
{
    if n <= 0 {
        seq![]
    } else {
        clip_lines_upto(lines, bbox, n - 1) + lineclip_spec(lines[n - 1], bbox)
    }
}

/// Each ring clipped on its own.
pub open spec fn clip_rings(rings: Seq<Seq<Point>>, bbox: BoundingBox) -> Seq<Seq<Point>> {
    Seq::new(rings.len(), |k: int| polygonclip_spec(rings[k], bbox))
}

/// Writing points, or subpaths, when every delta fits.
pub open spec fn encoded_or_overflow(fit: bool, words: Seq<u32>) -> Result<Seq<u32>, GeometryError> {
    if fit {
        Ok(words)
    } else {
        Err(GeometryError::DeltaOverflow)
    }
}

/// The command stream of a feature clipped to its layer's clip box: decoded,
/// clipped by type (points filtered, lines by Cohen-Sutherland, rings by
/// Sutherland-Hodgman) and written again.
pub open spec fn clip_geometry_spec(gt: i32, g: Seq<u32>, extent: u32) -> Result<Seq<u32>, GeometryError> {
    let bbox = clip_box(extent);
    if gt != GEOM_POINT && gt != GEOM_LINESTRING && gt != GEOM_POLYGON {
        Err(GeometryError::UnknownGeometryType)
    } else if !extent_ok(extent) {
        Err(GeometryError::ExtentTooLarge)
    } else {
        match decode_spec(gt, g) {
            None => Err(GeometryError::Malformed),
            Some(d) => {
                if gt == GEOM_POINT {
                    let c = points_within(d.0, bbox.0, bbox.2);
                    encoded_or_overflow(deltas_fit(c, 0, 0), encode_points_spec(c))
                } else {
                    let c = if gt == GEOM_LINESTRING {
                        clip_lines_upto(d.1, bbox, d.1.len() as int)
                    } else {
                        clip_rings(d.1, bbox)
                    };
                    encoded_or_overflow(
                        parts_fit_upto(c, c.len() as int),
                        encode_parts_upto(c, c.len() as int, gt == GEOM_POLYGON),
                    )
                }
            },
        }
    }
}

/// Clips a feature's command stream to the clip box of a layer of extent
/// `extent` and writes it again.
pub fn clip_geometry(geom_type: i32, geometry: &[u32], extent: u32) -> (r: Result<Vec<u32>, GeometryError>)
    ensures
        clip_geometry_spec(geom_type, geometry@, extent) == (match r {
            Ok(v) => Ok(v@),
            Err(e) => Err(e),
        }),
{
    if geom_type != GEOM_POINT && geom_type != GEOM_LINESTRING && geom_type != GEOM_POLYGON {
        return Err(GeometryError::UnknownGeometryType);
    }
    if extent as u64 + (extent / 16) as u64 > i32::MAX as u64 {
        return Err(GeometryError::ExtentTooLarge);
    }
    let buffer_pixels = (extent >> CLIP_BUFFER) as i32;
    assert(extent >> 4 == extent / 16) by (bit_vector);
    let min = -buffer_pixels;
    let max = (extent as i32) + buffer_pixels;
    let bbox: BoundingBox = (min, min, max, max);
    assert(bbox == clip_box(extent));
    let decoded = decode_geometry(geom_type, geometry);
    let (points, parts) = match decoded {
        None => {
            return Err(GeometryError::Malformed);
        },
        Some(d) => d,
    };
    if geom_type == GEOM_POINT {
        let clipped = clip_points_to_bbox(points, min, max);
        match encode_points(&clipped) {
            Some(out) => Ok(out),
            None => Err(GeometryError::DeltaOverflow),
        }
    } else {
        let ghost lv = lines_view(parts@);
        let mut clipped: Vec<LineString> = Vec::new();
        let n = parts.len();
        let mut k: usize = 0;
        while k < n
            invariant
                n == parts@.len(),
                lv == lines_view(parts@),
                valid_bbox(bbox),
                0 <= k <= n,
                geom_type == GEOM_LINESTRING || geom_type == GEOM_POLYGON,
                geom_type == GEOM_LINESTRING ==> lines_view(clipped@) == clip_lines_upto(lv, bbox, k as int),
                geom_type == GEOM_POLYGON ==> lines_view(clipped@) == clip_rings(lv, bbox).subrange(0, k as int),
            decreases n - k,
        {
            let part = LineString { points: parts[k].points.clone() };
            assert(part@ =~= lv[k as int]);
            let ghost before = lines_view(clipped@);
            if geom_type == GEOM_LINESTRING {
                let mut more = lineclip(part, bbox);
                let ghost more_view = lines_view(more@);
                clipped.append(&mut more);
                assert(lines_view(clipped@) =~= before + more_view);
            } else {
                let ring = polygonclip(part, bbox);
                clipped.push(ring);
                assert(lines_view(clipped@) =~= clip_rings(lv, bbox).subrange(0, k + 1));
            }
            k = k + 1;
        }
        if geom_type == GEOM_POLYGON {
            assert(clip_rings(lv, bbox).subrange(0, n as int) =~= clip_rings(lv, bbox));
        }
        match encode_parts(&clipped, geom_type == GEOM_POLYGON) {
            Some(out) => Ok(out),
            None => Err(GeometryError::DeltaOverflow),
        }
    }
}

/// The first coordinate pair of `g`, moved so that it is relative to the cell
/// `(rel_x, rel_y)` of side `new_extent`; `None` when `g` does not start with
/// a MoveTo and a pair, or the moved point leaves the `i32` range.
pub open spec fn rescaled_geometry(g: Seq<u32>, new_extent: u32, rel_x: u32, rel_y: u32) -> Option<Seq<u32>> {
    if g.len() < 3 || g[0] % 8 != 1 {
        None
    } else {
        let x = zz_dec_spec(g[1] as int) - new_extent * rel_x;
        let y = zz_dec_spec(g[2] as int) - new_extent * rel_y;
        if fits_i32(x) && fits_i32(y) {
            Some(g.update(1, zz_enc_spec(x) as u32).update(2, zz_enc_spec(y) as u32))
        } else {
            None
        }
    }
}

/// Moves the first point of a geometry into the frame of the cell
/// `(rel_x, rel_y)`. Only the first point is absolute; the deltas after it
/// stay valid. Returns whether the geometry could be rewritten; when it could
/// not, it is left as it was.
pub fn scale_geometry(geometry: &mut Vec<u32>, new_extent: u32, rel_x: u32, rel_y: u32) -> (r: bool)
    ensures
        r == rescaled_geometry(old(geometry)@, new_extent, rel_x, rel_y) is Some,
        r ==> final(geometry)@ == rescaled_geometry(old(geometry)@, new_extent, rel_x, rel_y)->0,
        !r ==> final(geometry)@ == old(geometry)@,
{
    if geometry.len() < 3 {
        return false;
    }
    let cmd = parse_command(geometry[0]);
    if cmd.id != MOVE_TO {
        return false;
    }
    let orig_x = zz_dec(geometry[1]);
    let orig_y = zz_dec(geometry[2]);
    proof {
        assert(0 <= (new_extent as int) * (rel_x as int) <= 0xFFFF_FFFF * 0xFFFF_FFFF) by (nonlinear_arith)
            requires
                0 <= new_extent <= 0xFFFF_FFFF,
                0 <= rel_x <= 0xFFFF_FFFF,
        ;
        assert(0 <= (new_extent as int) * (rel_y as int) <= 0xFFFF_FFFF * 0xFFFF_FFFF) by (nonlinear_arith)
            requires
                0 <= new_extent <= 0xFFFF_FFFF,
                0 <= rel_y <= 0xFFFF_FFFF,
        ;
    }
    let scaled_x = orig_x as i128 - (new_extent as i128) * (rel_x as i128);
    let scaled_y = orig_y as i128 - (new_extent as i128) * (rel_y as i128);
    if scaled_x < i32::MIN as i128 || scaled_x > i32::MAX as i128 || scaled_y < i32::MIN as i128
        || scaled_y > i32::MAX as i128 {
        return false;
    }
    geometry.set(1, zz_enc(scaled_x as i32));
    geometry.set(2, zz_enc(scaled_y as i32));
    true
}

/// A feature of a vector-tile layer: what the overzoom rescale reads or keeps.
pub struct Feature {
    pub id: Option<u64>,
    pub tags: Vec<u32>,
    /// 1 point, 2 linestring, 3 polygon.
    pub geom_type: Option<i32>,
    pub geometry: Vec<u32>,
}

/// A layer: its extent, when set, and its features. Its other fields (name,
/// keys, values, version) are not touched by the rescale.
pub struct Layer {
    pub extent: Option<u32>,
    pub features: Vec<Feature>,
}

/// A decoded vector tile, as far as the rescale is concerned.
pub struct VectorTile {
    pub layers: Vec<Layer>,
}

impl View for Feature {
    type V = (Option<u64>, Seq<u32>, Option<i32>, Seq<u32>);

    open spec fn view(&self) -> Self::V {
        (self.id, self.tags@, self.geom_type, self.geometry@)
    }
}

impl View for Layer {
    type V = (Option<u32>, Seq<(Option<u64>, Seq<u32>, Option<i32>, Seq<u32>)>);

    open spec fn view(&self) -> Self::V {
        (self.extent, Seq::new(self.features@.len(), |i: int| self.features@[i]@))
    }
}

impl View for VectorTile {
    type V = Seq<(Option<u32>, Seq<(Option<u64>, Seq<u32>, Option<i32>, Seq<u32>)>)>;

    open spec fn view(&self) -> Self::V {
        Seq::new(self.layers@.len(), |i: int| self.layers@[i]@)
    }
}

/// What becomes of one feature in a layer rescaled to `new_extent`: `Ok(None)`
/// when it is dropped (its geometry does not start with a MoveTo and a point
/// that can be moved, or clips to nothing), `Ok(Some(g))` when it is kept with
/// geometry `g`.
#[verifier::opaque]
pub open spec fn rescaled_feature(
    f: (Option<u64>, Seq<u32>, Option<i32>, Seq<u32>),
    new_extent: u32,
    rel_x: u32,
    rel_y: u32,
) -> Result<Option<Seq<u32>>, GeometryError> {
    match rescaled_geometry(f.3, new_extent, rel_x, rel_y) {
        None => Ok(None),
        Some(g) => match f.2 {
            None => Err(GeometryError::UnknownGeometryType),
            Some(t) => match clip_geometry_spec(t, g, new_extent) {
                Err(e) => Err(e),
                Ok(c) => if c.len() == 0 {
                    Ok(None)
                } else {
                    Ok(Some(c))
                },
            },
        },
    }
}

/// The first `n` features rescaled, the dropped ones left out; the first
/// error stops the work.
pub open spec fn rescaled_features(
    fs: Seq<(Option<u64>, Seq<u32>, Option<i32>, Seq<u32>)>,
    new_extent: u32,
    rel_x: u32,
    rel_y: u32,
    n: int,
) -> Result<Seq<(Option<u64>, Seq<u32>, Option<i32>, Seq<u32>)>, GeometryError>
    decreases n,
{
    if n <= 0 {
        Ok(seq![])
    } else {
        match rescaled_features(fs, new_extent, rel_x, rel_y, n - 1) {
            Err(e) => Err(e),
            Ok(prev) => match rescaled_feature(fs[n - 1], new_extent, rel_x, rel_y) {
                Err(e) => Err(e),
                Ok(None) => Ok(prev),
                Ok(Some(g)) => Ok(prev.push((fs[n - 1].0, fs[n - 1].1, fs[n - 1].2, g))),
            },
        }
    }
}

/// A layer rescaled by `steps` zoom levels into cell `(rel_x, rel_y)`: a layer
/// without features or without extent stays as it is; otherwise its extent
/// becomes `extent >> steps` and its features are rescaled.
#[verifier::opaque]
pub open spec fn rescaled_layer(
    l: (Option<u32>, Seq<(Option<u64>, Seq<u32>, Option<i32>, Seq<u32>)>),
    steps: u32,
    rel_x: u32,
    rel_y: u32,
) -> Result<(Option<u32>, Seq<(Option<u64>, Seq<u32>, Option<i32>, Seq<u32>)>), GeometryError> {
    if l.1.len() == 0 || l.0 is None {
        Ok(l)
    } else {
        let new_extent = l.0->0 >> steps;
        match rescaled_features(l.1, new_extent, rel_x, rel_y, l.1.len() as int) {
            Err(e) => Err(e),
            Ok(fs) => Ok((Some(new_extent), fs)),
        }
    }
}

/// The first `n` layers rescaled; the first error stops the work.
pub open spec fn rescaled_layers(
    ls: Seq<(Option<u32>, Seq<(Option<u64>, Seq<u32>, Option<i32>, Seq<u32>)>)>,
    steps: u32,
    rel_x: u32,
    rel_y: u32,
    n: int,
) -> Result<Seq<(Option<u32>, Seq<(Option<u64>, Seq<u32>, Option<i32>, Seq<u32>)>)>, GeometryError>
    decreases n,
{
    if n <= 0 {
        Ok(seq![])
    } else {
        match rescaled_layers(ls, steps, rel_x, rel_y, n - 1) {
            Err(e) => Err(e),
            Ok(prev) => match rescaled_layer(ls[n - 1], steps, rel_x, rel_y) {
                Err(e) => Err(e),
                Ok(l) => Ok(prev.push(l)),
            },
        }
    }
}

fn clone_u32s(v: &Vec<u32>) -> (r: Vec<u32>)
    ensures
        r@ == v@,
{
    let r = v.clone();
    assert(r@ =~= v@);
    r
}

/// Rescales one feature; see `rescaled_feature`.
fn scale_feature(f: &Feature, new_extent: u32, rel_x: u32, rel_y: u32) -> (r: Result<Option<Feature>, GeometryError>)
    ensures
        rescaled_feature(f@, new_extent, rel_x, rel_y) == (match r {
            Ok(Some(nf)) => Ok(Some(nf@.3)),
            Ok(None) => Ok(None),
            Err(e) => Err(e),
        }),
        r matches Ok(Some(nf)) ==> nf@.0 == f@.0 && nf@.1 == f@.1 && nf@.2 == f@.2,
{
    reveal(rescaled_feature);
    let mut geometry = clone_u32s(&f.geometry);
    if !scale_geometry(&mut geometry, new_extent, rel_x, rel_y) {
        return Ok(None);
    }
    let t = match f.geom_type {
        None => {
            return Err(GeometryError::UnknownGeometryType);
        },
        Some(t) => t,
    };
    match clip_geometry(t, geometry.as_slice(), new_extent) {
        Err(e) => Err(e),
        Ok(clipped) => {
            if clipped.len() == 0 {
                Ok(None)
            } else {
                Ok(Some(Feature { id: f.id, tags: clone_u32s(&f.tags), geom_type: f.geom_type, geometry: clipped }))
            }
        },
    }
}

proof fn lemma_features_error_sticks(
    fs: Seq<(Option<u64>, Seq<u32>, Option<i32>, Seq<u32>)>,
    new_extent: u32,
    rel_x: u32,
    rel_y: u32,
    i: int,
    n: int,
)
    requires
        0 <= i <= n,
        rescaled_features(fs, new_extent, rel_x, rel_y, i) is Err,
    ensures
        rescaled_features(fs, new_extent, rel_x, rel_y, n) == rescaled_features(fs, new_extent, rel_x, rel_y, i),
    decreases n - i,
{
    if i < n {
        lemma_features_error_sticks(fs, new_extent, rel_x, rel_y, i, n - 1);
    }
}

proof fn lemma_layers_error_sticks(
    ls: Seq<(Option<u32>, Seq<(Option<u64>, Seq<u32>, Option<i32>, Seq<u32>)>)>,
    steps: u32,
    rel_x: u32,
    rel_y: u32,
    i: int,
    n: int,
)
    requires
        0 <= i <= n,
        rescaled_layers(ls, steps, rel_x, rel_y, i) is Err,
    ensures
        rescaled_layers(ls, steps, rel_x, rel_y, n) == rescaled_layers(ls, steps, rel_x, rel_y, i),
    decreases n - i,
{
    if i < n {
        lemma_layers_error_sticks(ls, steps, rel_x, rel_y, i, n - 1);
    }
}

fn clone_feature(f: &Feature) -> (r: Feature)
    ensures
        r@ == f@,
{
    Feature { id: f.id, tags: clone_u32s(&f.tags), geom_type: f.geom_type, geometry: clone_u32s(&f.geometry) }
}

/// Rescales one layer; see `rescaled_layer`.
fn scale_layer(layer: &Layer, steps: u32, rel_x: u32, rel_y: u32) -> (r: Result<Layer, GeometryError>)
    requires
        steps < 32,
    ensures
        rescaled_layer(layer@, steps, rel_x, rel_y) == (match r {
            Ok(l) => Ok(l@),
            Err(e) => Err(e),
        }),
{
    reveal(rescaled_layer);
    let m = layer.features.len();
    let mut fs: Vec<Feature> = Vec::new();
    if m == 0 || layer.extent.is_none() {
        let mut k: usize = 0;
        while k < m
            invariant
                m == layer.features@.len(),
                0 <= k <= m,
                fs@.len() == k,
                forall|j: int| 0 <= j < k ==> #[trigger] fs@[j]@ == layer.features@[j]@,
            decreases m - k,
        {
            fs.push(clone_feature(&layer.features[k]));
            k = k + 1;
        }
        let nl = Layer { extent: layer.extent, features: fs };
        assert(nl@.1 =~= layer@.1);
        return Ok(nl);
    }
    let extent = match layer.extent {
        Some(e) => e,
        None => 0,
    };
    let new_extent = extent >> steps;
    let mut k: usize = 0;
    assert(Seq::new(fs@.len(), |j: int| fs@[j]@) =~= seq![]);
    while k < m
        invariant
            m == layer.features@.len(),
            0 <= k <= m,
            m > 0,
            layer.extent == Some(extent),
            new_extent == extent >> steps,
            rescaled_features(layer@.1, new_extent, rel_x, rel_y, k as int) == Ok::<_, GeometryError>(
                Seq::new(fs@.len(), |j: int| fs@[j]@),
            ),
        decreases m - k,
    {
        let ghost before = Seq::new(fs@.len(), |j: int| fs@[j]@);
        assert(layer@.1[k as int] == layer.features@[k as int]@);
        match scale_feature(&layer.features[k], new_extent, rel_x, rel_y) {
            Err(e) => {
                proof {
                    assert(rescaled_features(layer@.1, new_extent, rel_x, rel_y, k + 1) == Err::<
                        Seq<(Option<u64>, Seq<u32>, Option<i32>, Seq<u32>)>,
                        GeometryError,
                    >(e));
                    lemma_features_error_sticks(layer@.1, new_extent, rel_x, rel_y, k + 1, m as int);
                    assert(layer@.1.len() == m);
                    reveal(rescaled_layer);
                }
                return Err(e);
            },
            Ok(None) => {},
            Ok(Some(nf)) => {
                fs.push(nf);
                assert(Seq::new(fs@.len(), |j: int| fs@[j]@) =~= before.push(fs@.last()@));
            },
        }
        k = k + 1;
    }
    let nl = Layer { extent: Some(new_extent), features: fs };
    assert(nl@.1 =~= Seq::new(fs@.len(), |j: int| fs@[j]@));
    Ok(nl)
}

/// Rescales every layer of a decoded tile so that it covers only the cell
/// `(rel_x, rel_y)` of the `2^steps`-sided grid over the tile: each layer with
/// features and an extent gets extent `extent >> steps`, each feature's first
/// point is moved into the cell's frame and the feature is clipped to the new
/// clip box. Features that cannot be moved or clip to nothing are dropped. A
/// feature of unknown type, or whose geometry cannot be decoded or written,
/// fails the whole tile.
pub fn scale_tile(tile: VectorTile, steps: u32, rel_x: u32, rel_y: u32) -> (r: Result<VectorTile, GeometryError>)
    requires
        steps < 32,
    ensures
        rescaled_layers(tile@, steps, rel_x, rel_y, tile@.len() as int) == (match r {
            Ok(t) => Ok(t@),
            Err(e) => Err(e),
        }),
{
    let ghost tv = tile@;
    let layers = tile.layers;
    let mut out: Vec<Layer> = Vec::new();
    let n = layers.len();
    let mut i: usize = 0;
    assert(Seq::new(out@.len(), |j: int| out@[j]@) =~= seq![]);
    while i < n
        invariant
            n == layers@.len(),
            tv == tile@,
            tv.len() == n,
            forall|j: int| 0 <= j < n ==> tv[j] == #[trigger] layers@[j]@,
            0 <= i <= n,
            steps < 32,
            rescaled_layers(tv, steps, rel_x, rel_y, i as int) == Ok::<_, GeometryError>(
                Seq::new(out@.len(), |j: int| out@[j]@),
            ),
        decreases n - i,
    {
        let ghost prev = Seq::new(out@.len(), |j: int| out@[j]@);
        assert(tv[i as int] == layers@[i as int]@);
        match scale_layer(&layers[i], steps, rel_x, rel_y) {
            Err(e) => {
                proof {
                    assert(rescaled_layers(tv, steps, rel_x, rel_y, i + 1) == Err::<
                        Seq<(Option<u32>, Seq<(Option<u64>, Seq<u32>, Option<i32>, Seq<u32>)>)>,
                        GeometryError,
                    >(e));
                    lemma_layers_error_sticks(tv, steps, rel_x, rel_y, i + 1, n as int);
                }
                return Err(e);
            },
            Ok(nl) => {
                out.push(nl);
                assert(Seq::new(out@.len(), |j: int| out@[j]@) =~= prev.push(out@.last()@));
            },
        }
        i = i + 1;
    }
    let r = VectorTile { layers: out };
    assert(r@ =~= Seq::new(out@.len(), |j: int| out@[j]@));
    Ok(r)
}

} // verus!
