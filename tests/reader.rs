use mbtiles_tool::reader::{
    shuffled_worker_share, split_extents, split_tile_extent, split_tile_extent_recursive,
    worker_count, worker_count_for, worker_share, InputTileZoomExtent, EXTENT_CHUNK_TILE_COUNT,
};

fn ext(zoom: u8, min_x: u64, max_x: u64, min_y: u64, max_y: u64) -> InputTileZoomExtent {
    InputTileZoomExtent { zoom, min_x, max_x, min_y, max_y }
}

#[test]
fn tile_count_formula() {
    assert_eq!(ext(3, 0, 0, 0, 0).tile_count(), 1);
    assert_eq!(ext(3, 2, 5, 10, 19).tile_count(), 40);
}

#[test]
fn split_along_longer_axis() {
    assert_eq!(
        split_tile_extent(ext(10, 0, 99, 0, 9)),
        vec![ext(10, 0, 49, 0, 9), ext(10, 50, 99, 0, 9)]
    );
    assert_eq!(
        split_tile_extent(ext(10, 0, 9, 0, 99)),
        vec![ext(10, 0, 9, 0, 49), ext(10, 0, 9, 50, 99)]
    );
    // equal halves split across y
    assert_eq!(
        split_tile_extent(ext(10, 0, 9, 0, 9)),
        vec![ext(10, 0, 9, 0, 4), ext(10, 0, 9, 5, 9)]
    );
    // too thin: half the x span is one tile
    assert_eq!(split_tile_extent(ext(10, 0, 3, 0, 99999)), vec![ext(10, 0, 3, 0, 99999)]);
}

#[test]
fn recursive_split_bounds_chunks() {
    let e = ext(12, 0, 1000, 0, 1000);
    let chunks = split_tile_extent_recursive(e);
    assert!(chunks.len() > 1);
    let mut total = 0u64;
    for c in &chunks {
        assert_eq!(c.zoom, 12);
        assert!(c.tile_count() <= EXTENT_CHUNK_TILE_COUNT);
        total += c.tile_count();
    }
    assert_eq!(total, e.tile_count());
}

#[test]
fn recursive_split_stops_on_thin_extents() {
    // four tiles wide: cannot be split, though it holds more than a chunk
    let e = ext(12, 0, 3, 0, 99999);
    assert_eq!(split_tile_extent_recursive(e), vec![e]);
    let small = ext(5, 1, 2, 1, 2);
    assert_eq!(split_tile_extent_recursive(small), vec![small]);
}

#[test]
fn split_extents_keeps_small_ones() {
    let es = vec![ext(1, 0, 1, 0, 1), ext(12, 0, 1000, 0, 1000), ext(2, 0, 3, 0, 3)];
    let out = split_extents(&es);
    assert_eq!(out[0], es[0]);
    assert_eq!(out[out.len() - 1], es[2]);
    assert_eq!(out.len(), 2 + split_tile_extent_recursive(es[1]).len());
}

#[test]
fn worker_counts() {
    assert_eq!(worker_count_for(1), 2);
    assert_eq!(worker_count_for(3), 2);
    assert_eq!(worker_count_for(4), 2);
    assert_eq!(worker_count_for(16), 14);
    assert!(worker_count() >= 2);
}

#[test]
fn worker_shares_partition_chunks() {
    let chunks: Vec<InputTileZoomExtent> = (0..10u64).map(|i| ext(1, i, i, 0, 0)).collect();
    let share = worker_share(&chunks, 1, 3);
    assert_eq!(share, vec![chunks[1], chunks[4], chunks[7]]);
    assert_eq!(worker_share(&chunks, 0, 3).len(), 4);
    assert_eq!(worker_share(&chunks, 2, 3).len(), 3);
    assert_eq!(worker_share(&chunks, 10, 3), vec![]);
    let mut shuffled = shuffled_worker_share(&chunks, 0, 3);
    shuffled.sort_by_key(|e| e.min_x);
    assert_eq!(shuffled, worker_share(&chunks, 0, 3));
}
