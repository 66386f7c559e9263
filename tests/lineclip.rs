use mbtiles_tool::geom::{LineString, Point, Polygon};
use mbtiles_tool::lineclip::{lineclip, polygonclip};

fn p(x: i32, y: i32) -> Point {
    Point { x, y }
}

#[test]
fn test_lineclip() {
    assert_eq!(
        lineclip(
            LineString {
                points: vec![
                    Point { x: -10, y: 10 },
                    Point { x: 10, y: 10 },
                    Point { x: 10, y: -10 },
                    Point { x: 20, y: -10 },
                    Point { x: 20, y: 10 },
                    Point { x: 40, y: 10 },
                    Point { x: 40, y: 20 },
                    Point { x: 20, y: 20 },
                    Point { x: 20, y: 40 },
                    Point { x: 10, y: 40 },
                    Point { x: 10, y: 20 },
                    Point { x: 5, y: 20 },
                    Point { x: -10, y: 20 },
                ]
            },
            (0, 0, 30, 30)
        ),
        vec![
            LineString {
                points: vec![
                    Point { x: 0, y: 10 },
                    Point { x: 10, y: 10 },
                    Point { x: 10, y: 0 }
                ]
            },
            LineString {
                points: vec![
                    Point { x: 20, y: 0 },
                    Point { x: 20, y: 10 },
                    Point { x: 30, y: 10 }
                ]
            },
            LineString {
                points: vec![
                    Point { x: 30, y: 20 },
                    Point { x: 20, y: 20 },
                    Point { x: 20, y: 30 }
                ]
            },
            LineString {
                points: vec![
                    Point { x: 10, y: 30 },
                    Point { x: 10, y: 20 },
                    Point { x: 5, y: 20 },
                    Point { x: 0, y: 20 }
                ]
            },
        ]
    );

    assert_eq!(
        lineclip(
            LineString {
                points: vec![
                    Point { x: 10, y: -10 },
                    Point { x: 5, y: 5 },
                    Point { x: 10, y: 10 }
                ]
            },
            (3, 3, 6, 6)
        ),
        vec![LineString {
            points: vec![
                Point { x: 6, y: 3 },
                Point { x: 5, y: 5 },
                Point { x: 6, y: 6 }
            ]
        }]
    );
}

#[test]
fn test_polygonclip() {
    assert_eq!(
        polygonclip(
            Polygon {
                points: vec![
                    Point { x: -10, y: 10 },
                    Point { x: 0, y: 10 },
                    Point { x: 10, y: 10 },
                    Point { x: 10, y: 5 },
                    Point { x: 10, y: -5 },
                    Point { x: 10, y: -10 },
                    Point { x: 20, y: -10 },
                    Point { x: 20, y: 10 },
                    Point { x: 40, y: 10 },
                    Point { x: 40, y: 20 },
                    Point { x: 20, y: 20 },
                    Point { x: 20, y: 40 },
                    Point { x: 10, y: 40 },
                    Point { x: 10, y: 20 },
                    Point { x: 5, y: 20 },
                    Point { x: -10, y: 20 },
                ]
            },
            (0, 0, 30, 30)
        ),
        Polygon {
            points: vec![
                Point { x: 0, y: 10 },
                Point { x: 0, y: 10 },
                Point { x: 10, y: 10 },
                Point { x: 10, y: 5 },
                Point { x: 10, y: 0 },
                Point { x: 20, y: 0 },
                Point { x: 20, y: 10 },
                Point { x: 30, y: 10 },
                Point { x: 30, y: 20 },
                Point { x: 20, y: 20 },
                Point { x: 20, y: 30 },
                Point { x: 10, y: 30 },
                Point { x: 10, y: 20 },
                Point { x: 5, y: 20 },
                Point { x: 0, y: 20 },
            ]
        }
    );
}

#[test]
fn lineclip_edge_cases() {
    assert_eq!(lineclip(LineString { points: vec![] }, (0, 0, 10, 10)), vec![]);
    // a single point has no segment
    assert_eq!(lineclip(LineString { points: vec![p(5, 5)] }, (0, 0, 10, 10)), vec![]);
    // entirely inside
    assert_eq!(
        lineclip(LineString { points: vec![p(1, 1), p(2, 2), p(3, 1)] }, (0, 0, 10, 10)),
        vec![LineString { points: vec![p(1, 1), p(2, 2), p(3, 1)] }]
    );
    // entirely outside, on one side
    assert_eq!(
        lineclip(LineString { points: vec![p(-5, 1), p(-5, 9)] }, (0, 0, 10, 10)),
        vec![]
    );
    // crossing the box corner to corner
    assert_eq!(
        lineclip(LineString { points: vec![p(-10, -10), p(20, 20)] }, (0, 0, 10, 10)),
        vec![LineString { points: vec![p(0, 0), p(10, 10)] }]
    );
}

#[test]
fn lineclip_truncates_toward_zero() {
    // from (0,0) to (3,-7) against top edge... here bottom edge y = -2:
    // x = 0 + (3 - 0) * (-2 - 0) / (-7 - 0) = -6 / -7 = 0 (truncated)
    assert_eq!(
        lineclip(LineString { points: vec![p(0, 0), p(3, -7)] }, (-10, -2, 10, 2)),
        vec![LineString { points: vec![p(0, 0), p(0, -2)] }]
    );
    // x = 0 + (-3) * (-2) / (-7) = 6 / -7 = 0 (toward zero, not -1)
    assert_eq!(
        lineclip(LineString { points: vec![p(0, 0), p(-3, -7)] }, (-10, -2, 10, 2)),
        vec![LineString { points: vec![p(0, 0), p(0, -2)] }]
    );
}

#[test]
fn polygonclip_edge_cases() {
    assert_eq!(polygonclip(Polygon { points: vec![] }, (0, 0, 10, 10)), Polygon { points: vec![] });
    assert_eq!(
        polygonclip(Polygon { points: vec![p(20, 20), p(30, 20), p(30, 30)] }, (0, 0, 10, 10)),
        Polygon { points: vec![] }
    );
    assert_eq!(
        polygonclip(Polygon { points: vec![p(1, 1), p(5, 1), p(5, 5)] }, (0, 0, 10, 10)),
        Polygon { points: vec![p(1, 1), p(5, 1), p(5, 5)] }
    );
}

#[test]
fn lineclip_far_apart_points() {
    // a long diagonal across the whole i32 range still clips exactly
    assert_eq!(
        lineclip(
            LineString { points: vec![p(i32::MIN, i32::MIN), p(i32::MAX, i32::MAX)] },
            (0, 0, 10, 10)
        ),
        vec![LineString { points: vec![p(0, 0), p(10, 10)] }]
    );
}
