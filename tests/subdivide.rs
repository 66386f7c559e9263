use mbtiles_tool::subdivide::{route_tile, routing_rules, SubdivideConfig, SubdivideOutput, NO_MAXZOOM};
use mbtiles_tool::writer::WriterProgress;
use mbtiles_tool::reader::EXTENT_CHUNK_TILE_COUNT;

fn config() -> SubdivideConfig {
    SubdivideConfig {
        outputs: vec![
            SubdivideOutput { name: "a".to_string(), tiles: vec![(4, 3, 3)], maxzoom: None },
            SubdivideOutput { name: "b".to_string(), tiles: vec![(0, 0, 0), (1, 0, 1)], maxzoom: Some(3) },
        ],
    }
}

#[test]
fn rules_of_config() {
    assert_eq!(
        routing_rules(&config()),
        vec![((4, 3, 3), NO_MAXZOOM, 0), ((0, 0, 0), 3, 1), ((1, 0, 1), 3, 1)]
    );
}

#[test]
fn routing_flips_rows_and_allows_overlap() {
    let rules = routing_rules(&config());
    // XYZ (9,7,4) is TMS row 15 - 7 = 8: under (4,3,3), too deep for "b"
    assert_eq!(route_tile(&rules, (9, 8, 4)), vec![0]);
    // XYZ (4,3,3) is TMS row 4: goes to "a", and twice to "b" (both of its tiles are ancestors)
    assert_eq!(route_tile(&rules, (4, 4, 3)), vec![0, 1, 1]);
    // XYZ (0,0,3) is TMS row 7: only under (0,0,0)
    assert_eq!(route_tile(&rules, (0, 7, 3)), vec![1]);
}

#[test]
fn writer_commits_every_chunk() {
    let mut p = WriterProgress::new();
    assert_eq!((p.tile_count, p.min_zoom, p.max_zoom), (0, 999, 0));
    let mut commits = 0;
    for i in 0..(2 * EXTENT_CHUNK_TILE_COUNT) {
        if p.record((i % 5) as u32 + 3) {
            commits += 1;
        }
    }
    assert_eq!(commits, 2);
    assert_eq!((p.tile_count, p.min_zoom, p.max_zoom), (2 * EXTENT_CHUNK_TILE_COUNT, 3, 7));
}
