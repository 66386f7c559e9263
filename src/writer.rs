//! The writer's bookkeeping: tiles written, the zoom range seen, and when to
//! commit the running transaction.
use crate::reader::EXTENT_CHUNK_TILE_COUNT;
use vstd::prelude::*;

verus! {

/// What a writer has seen so far.
#[derive(Debug, Clone, Copy, PartialEq, Eq, Structural)]
pub struct WriterProgress {
    pub tile_count: u64,
    /// 999 before any tile.
    pub min_zoom: u32,
    /// 0 before any tile.
    pub max_zoom: u32,
}

impl WriterProgress {
    pub fn new() -> (r: WriterProgress)
        ensures
            r.tile_count == 0,
            r.min_zoom == 999,
            r.max_zoom == 0,
    {
        WriterProgress { tile_count: 0, min_zoom: 999, max_zoom: 0 }
    }

    /// Records one written tile at zoom `z`; returns whether the running
    /// transaction is to be committed now, after every
    /// `EXTENT_CHUNK_TILE_COUNT` tiles.
    pub fn record(&mut self, z: u32) -> (commit: bool)
        requires
            old(self).tile_count < u64::MAX,
        ensures
            final(self).tile_count == old(self).tile_count + 1,
            final(self).min_zoom == if z < old(self).min_zoom { z } else { old(self).min_zoom },
            final(self).max_zoom == if z > old(self).max_zoom { z } else { old(self).max_zoom },
            commit == (final(self).tile_count % EXTENT_CHUNK_TILE_COUNT == 0),
    {
        self.tile_count = self.tile_count + 1;
        if z < self.min_zoom {
            self.min_zoom = z;
        }
        if z > self.max_zoom {
            self.max_zoom = z;
        }
        self.tile_count % EXTENT_CHUNK_TILE_COUNT == 0
    }
}

} // verus!
