use mbtiles_tool::vector_tile_ops::{
    clip_geometry, clip_points_to_bbox, decode_geometry, encode_command, parse_command,
    scale_geometry, scale_tile, zz_dec, zz_enc, Command, Feature, GeometryError, Layer, VectorTile,
};
use mbtiles_tool::geom::Point;

#[test]
fn test_scale_geometry() {
    let mut input_geom_1 = vec![9, 50, 34];
    scale_geometry(&mut input_geom_1, 1024, 0, 0);
    assert_eq!(input_geom_1, vec![9, 50, 34]);

    let mut input_geom_2 = vec![9, zz_enc(25), zz_enc(17)];
    scale_geometry(&mut input_geom_2, 1024, 1, 0);
    assert_eq!(input_geom_2, vec![9, zz_enc(25 - 1024), zz_enc(17)]);
}

#[test]
fn zigzag_values() {
    assert_eq!(zz_enc(0), 0);
    assert_eq!(zz_enc(-1), 1);
    assert_eq!(zz_enc(1), 2);
    assert_eq!(zz_enc(-2), 3);
    assert_eq!(zz_enc(25), 50);
    assert_eq!(zz_enc(i32::MAX), u32::MAX - 1);
    assert_eq!(zz_enc(i32::MIN), u32::MAX);
    assert_eq!(zz_dec(50), 25);
    assert_eq!(zz_dec(3), -2);
    assert_eq!(zz_dec(u32::MAX), i32::MIN);
}

#[test]
fn zigzag_round_trips() {
    for n in [0, 1, -1, 17, -999, i32::MAX, i32::MIN, 123456, -654321] {
        assert_eq!(zz_dec(zz_enc(n)), n);
    }
    for u in [0u32, 1, 2, 3, 1000, u32::MAX, u32::MAX - 1, 0x8000_0000] {
        assert_eq!(zz_enc(zz_dec(u)), u);
    }
}

#[test]
fn command_words() {
    assert_eq!(encode_command(Command { id: 1, count: 1 }), 9);
    assert_eq!(encode_command(Command { id: 2, count: 3 }), 26);
    assert_eq!(encode_command(Command { id: 7, count: 0 }), 7);
    let c = parse_command(9);
    assert_eq!((c.id, c.count), (1, 1));
    for (id, count) in [(0u8, 0u32), (1, 1), (2, 5), (7, (1 << 29) - 1), (3, 12345)] {
        let c = parse_command(encode_command(Command { id, count }));
        assert_eq!(c, Command { id, count });
    }
    // only the low three bits of the id are kept
    assert_eq!(encode_command(Command { id: 9, count: 0 }), 1);
}

#[test]
fn points_filtered_to_square() {
    let pts = vec![Point { x: 0, y: 0 }, Point { x: -5, y: 3 }, Point { x: 10, y: 10 }, Point { x: 11, y: 2 }];
    assert_eq!(clip_points_to_bbox(pts, -1, 10), vec![Point { x: 0, y: 0 }, Point { x: 10, y: 10 }]);
}

#[test]
fn decode_keeps_cursor_across_subpaths() {
    // two lines: (1,1)-(3,1) then MoveTo (+1,+1) -> (4,2), LineTo (4,5)
    let g = vec![9, zz_enc(1), zz_enc(1), 10, zz_enc(2), 0, 9, zz_enc(1), zz_enc(1), 10, 0, zz_enc(3)];
    let (pts, parts) = decode_geometry(2, &g).unwrap();
    assert!(pts.is_empty());
    assert_eq!(parts.len(), 2);
    assert_eq!(parts[0].points, vec![Point { x: 1, y: 1 }, Point { x: 3, y: 1 }]);
    assert_eq!(parts[1].points, vec![Point { x: 4, y: 2 }, Point { x: 4, y: 5 }]);
}

#[test]
fn clip_geometry_points() {
    // (10,20) stays, (5010,20) is outside the box [-256, 4352]
    let g = vec![17, zz_enc(10), zz_enc(20), zz_enc(5000), 0];
    assert_eq!(clip_geometry(1, &g, 4096), Ok(vec![9, 20, 40]));
}

#[test]
fn clip_geometry_single_line_inside() {
    let g = vec![9, 0, 0, 18, zz_enc(100), 0, zz_enc(100), 0];
    assert_eq!(clip_geometry(2, &g, 4096), Ok(g.clone()));
}

#[test]
fn clip_geometry_line_cut_at_box() {
    // from (0,0) to (5000,0): the box of extent 4096 ends at 4352
    let g = vec![9, 0, 0, 10, zz_enc(5000), 0];
    assert_eq!(clip_geometry(2, &g, 4096), Ok(vec![9, 0, 0, 10, zz_enc(4352), 0]));
}

#[test]
fn clip_geometry_polygon_inside() {
    let g = vec![9, 20, 20, 18, 40, 0, 0, 40, 7];
    assert_eq!(clip_geometry(3, &g, 4096), Ok(g.clone()));
}

#[test]
fn clip_geometry_polygon_outside_is_empty() {
    let g = vec![9, zz_enc(9000), zz_enc(9000), 18, 40, 0, 0, 40, 7];
    assert_eq!(clip_geometry(3, &g, 4096), Ok(vec![]));
}

#[test]
fn clip_geometry_errors() {
    assert_eq!(clip_geometry(0, &[9, 0, 0], 4096), Err(GeometryError::UnknownGeometryType));
    assert_eq!(clip_geometry(4, &[9, 0, 0], 4096), Err(GeometryError::UnknownGeometryType));
    assert_eq!(clip_geometry(1, &[9, 20], 4096), Err(GeometryError::Malformed));
    assert_eq!(clip_geometry(2, &[3], 4096), Err(GeometryError::Malformed));
    assert_eq!(
        clip_geometry(1, &[9, zz_enc(i32::MAX), 0, 9, 2, 0], 4096),
        Err(GeometryError::Malformed)
    );
    assert_eq!(clip_geometry(1, &[9, 0, 0], u32::MAX), Err(GeometryError::ExtentTooLarge));
}

#[test]
fn clip_geometry_delta_overflow() {
    // the middle point lies outside the box; once it is gone, the delta between
    // the other two needs more than 32 bits
    let g = vec![
        25,
        zz_enc(-120_000_000),
        0,
        zz_enc(1_120_000_000),
        zz_enc(2_140_000_000),
        zz_enc(1_100_000_000),
        zz_enc(-2_140_000_000),
    ];
    assert_eq!(clip_geometry(1, &g, 2_000_000_000), Err(GeometryError::DeltaOverflow));
}

#[test]
fn scale_geometry_rejects() {
    let mut g = vec![10, 2, 2];
    assert!(!scale_geometry(&mut g, 1024, 1, 1));
    assert_eq!(g, vec![10, 2, 2]);
    let mut short = vec![9, 2];
    assert!(!scale_geometry(&mut short, 1024, 1, 1));
    let mut empty: Vec<u32> = vec![];
    assert!(!scale_geometry(&mut empty, 1024, 1, 1));
}

fn feature(t: i32, g: Vec<u32>) -> Feature {
    Feature { id: Some(7), tags: vec![0, 1], geom_type: Some(t), geometry: g }
}

#[test]
fn scale_tile_rescales_and_drops() {
    let tile = VectorTile {
        layers: vec![
            Layer {
                extent: Some(4096),
                features: vec![
                    feature(1, vec![9, zz_enc(3000), zz_enc(100)]),
                    feature(2, vec![9, zz_enc(100), zz_enc(100), 10, zz_enc(10), 0]),
                    feature(1, vec![10, 0, 0]),
                ],
            },
            Layer { extent: None, features: vec![feature(1, vec![9, 2, 2])] },
            Layer { extent: Some(4096), features: vec![] },
        ],
    };
    let out = scale_tile(tile, 1, 1, 0).unwrap();
    assert_eq!(out.layers.len(), 3);
    assert_eq!(out.layers[0].extent, Some(2048));
    assert_eq!(out.layers[0].features.len(), 1);
    let f = &out.layers[0].features[0];
    assert_eq!(f.geometry, vec![9, zz_enc(952), zz_enc(100)]);
    assert_eq!(f.id, Some(7));
    assert_eq!(f.tags, vec![0, 1]);
    assert_eq!(out.layers[1].extent, None);
    assert_eq!(out.layers[1].features[0].geometry, vec![9, 2, 2]);
    assert_eq!(out.layers[2].extent, Some(4096));
}

#[test]
fn scale_tile_unknown_type_fails() {
    let tile = VectorTile {
        layers: vec![Layer {
            extent: Some(4096),
            features: vec![Feature { id: None, tags: vec![], geom_type: None, geometry: vec![9, 2, 2] }],
        }],
    };
    assert_eq!(scale_tile(tile, 1, 0, 0).err(), Some(GeometryError::UnknownGeometryType));
}

#[test]
fn clip_geometry_keeps_cursor_across_lines() {
    let z = zz_enc;
    // (5,5)-(10,5)-(10,10), then (20,20)-(15,25), then (0,0)-(1,1)
    let g = vec![
        9, z(5), z(5), 18, z(5), z(0), z(0), z(5),
        9, z(10), z(10), 10, z(-5), z(5),
        9, z(-15), z(-25), 10, z(1), z(1),
    ];
    assert_eq!(clip_geometry(2, &g, 4096), Ok(g.clone()));
}

#[test]
fn clip_geometry_keeps_cursor_across_rings() {
    let z = zz_enc;
    let g = vec![
        9, 0, 0, 18, z(10), 0, 0, z(10), 7,
        9, z(10), z(10), 18, z(10), 0, 0, z(10), 7,
    ];
    assert_eq!(clip_geometry(3, &g, 4096), Ok(g.clone()));
}

#[test]
fn clip_geometry_drops_clipped_out_lines() {
    let z = zz_enc;
    // the first line lies left of the box; the second is written from the origin
    let g = vec![9, z(-1000), 0, 10, z(10), 0, 9, z(1090), z(5), 10, z(1), 0];
    assert_eq!(clip_geometry(2, &g, 4096), Ok(vec![9, z(100), z(5), 10, z(1), 0]));
}
