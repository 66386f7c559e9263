//! The reader's pure part: cutting each zoom level's extent into chunks of
//! bounded size, and handing the chunks out to the worker threads.
use rand::seq::SliceRandom;
use vstd::prelude::*;

verus! {

/// The most tiles a chunk should hold; also the writer's commit interval.
pub const EXTENT_CHUNK_TILE_COUNT: u64 = 32768;

/// A rectangle of tiles at one zoom level, in TMS coordinates, both ends
/// included.
#[derive(Debug, Clone, Copy, PartialEq, Eq, Structural)]
pub struct InputTileZoomExtent {
    pub zoom: u8,
    pub min_x: u64,
    pub max_x: u64,
    pub min_y: u64,
    pub max_y: u64,
}

impl InputTileZoomExtent {
    /// Both ranges are ordered, and short enough (below `2^32 - 1`) for the
    /// tile count to fit in a `u64`.
    pub open spec fn wf(self) -> bool {
        &&& self.min_x <= self.max_x < 0xFFFF_FFFF
        &&& self.min_y <= self.max_y < 0xFFFF_FFFF
    }

    pub open spec fn width(self) -> int {
        self.max_x - self.min_x + 1
    }

    pub open spec fn height(self) -> int {
        self.max_y - self.min_y + 1
    }

    pub open spec fn count(self) -> int {
        self.width() * self.height()
    }

    /// The number of tiles in the rectangle.
    pub fn tile_count(self) -> (r: u64)
        requires
            self.wf(),
        ensures
            r == self.count(),
    {
        proof {
            let w = self.width();
            let h = self.height();
            assert(w * h <= 0xFFFF_FFFF * 0xFFFF_FFFF) by (nonlinear_arith)
                requires
                    1 <= w <= 0xFFFF_FFFF,
                    1 <= h <= 0xFFFF_FFFF,
            ;
        }
        ((self.max_x - self.min_x) + 1) * ((self.max_y - self.min_y) + 1)
    }
}

/// Too thin to split: half of one side's span is at most one tile.
pub open spec fn too_thin(e: InputTileZoomExtent) -> bool {
    (e.max_x - e.min_x) / 2 <= 1 || (e.max_y - e.min_y) / 2 <= 1
}

/// The two halves of `e`, cut across its longer axis (the x axis when it is
/// strictly longer), the first half one tile longer than half the span; `e`
/// alone when it is too thin.
pub open spec fn split_spec(e: InputTileZoomExtent) -> Seq<InputTileZoomExtent> {
    let hw = ((e.max_x - e.min_x) / 2) as u64;
    let hh = ((e.max_y - e.min_y) / 2) as u64;
    if too_thin(e) {
        seq![e]
    } else if hw > hh {
        seq![
            InputTileZoomExtent { max_x: (e.min_x + hw) as u64, ..e },
            InputTileZoomExtent { min_x: (e.min_x + hw + 1) as u64, ..e },
        ]
    } else {
        seq![
            InputTileZoomExtent { max_y: (e.min_y + hh) as u64, ..e },
            InputTileZoomExtent { min_y: (e.min_y + hh + 1) as u64, ..e },
        ]
    }
}

/// Splits `e` in two across its longer axis; see `split_spec`.
pub fn split_tile_extent(e: InputTileZoomExtent) -> (r: Vec<InputTileZoomExtent>)
    requires
        e.wf(),
    ensures
        r@ == split_spec(e),
{
    let half_width = (e.max_x - e.min_x) / 2;
    let half_height = (e.max_y - e.min_y) / 2;
    if half_width <= 1 || half_height <= 1 {
        let r = vec![e];
        assert(r@ =~= split_spec(e));
        return r;
    }
    let mut ret: Vec<InputTileZoomExtent> = Vec::new();
    if half_width > half_height {
        ret.push(InputTileZoomExtent { zoom: e.zoom, min_x: e.min_x, max_x: e.min_x + half_width, min_y: e.min_y, max_y: e.max_y });
        ret.push(InputTileZoomExtent { zoom: e.zoom, min_x: e.min_x + half_width + 1, max_x: e.max_x, min_y: e.min_y, max_y: e.max_y });
    } else {
        ret.push(InputTileZoomExtent { zoom: e.zoom, min_x: e.min_x, max_x: e.max_x, min_y: e.min_y, max_y: e.min_y + half_height });
        ret.push(InputTileZoomExtent { zoom: e.zoom, min_x: e.min_x, max_x: e.max_x, min_y: e.min_y + half_height + 1, max_y: e.max_y });
    }
    assert(ret@ =~= split_spec(e));
    ret
}

/// Splitting a well-formed extent that is not too thin gives two well-formed
/// extents, each with fewer tiles.
pub proof fn lemma_split_shrinks(e: InputTileZoomExtent)
    requires
        e.wf(),
        !too_thin(e),
    ensures
        split_spec(e).len() == 2,
        split_spec(e)[0].wf() && split_spec(e)[1].wf(),
        0 <= split_spec(e)[0].count() < e.count(),
        0 <= split_spec(e)[1].count() < e.count(),
{
    let s = split_spec(e);
    let hw = (e.max_x - e.min_x) / 2;
    let hh = (e.max_y - e.min_y) / 2;
    if hw > hh {
        assert(0 < s[0].width() < e.width() && s[0].height() == e.height());
        assert(0 < s[1].width() < e.width() && s[1].height() == e.height());
        vstd::arithmetic::mul::lemma_mul_strict_inequality(s[0].width(), e.width(), e.height());
        vstd::arithmetic::mul::lemma_mul_strict_inequality(s[1].width(), e.width(), e.height());
        vstd::arithmetic::mul::lemma_mul_nonnegative(s[0].width(), e.height());
        vstd::arithmetic::mul::lemma_mul_nonnegative(s[1].width(), e.height());
    } else {
        assert(0 < s[0].height() < e.height() && s[0].width() == e.width());
        assert(0 < s[1].height() < e.height() && s[1].width() == e.width());
        vstd::arithmetic::mul::lemma_mul_strict_inequality(s[0].height(), e.height(), e.width());
        vstd::arithmetic::mul::lemma_mul_strict_inequality(s[1].height(), e.height(), e.width());
        vstd::arithmetic::mul::lemma_mul_nonnegative(s[0].width(), s[0].height());
        vstd::arithmetic::mul::lemma_mul_nonnegative(s[1].width(), s[1].height());
        vstd::arithmetic::mul::lemma_mul_is_commutative(s[0].height(), e.width());
        vstd::arithmetic::mul::lemma_mul_is_commutative(s[1].height(), e.width());
        vstd::arithmetic::mul::lemma_mul_is_commutative(e.height(), e.width());
    }
}

/// The chunks of `e`: `e` itself when it holds at most the chunk size or is
/// too thin to split, else the chunks of each half.
pub open spec fn chunks_of(e: InputTileZoomExtent) -> Seq<InputTileZoomExtent>
    decreases e.count(),
    when e.wf()
{
    if e.count() <= EXTENT_CHUNK_TILE_COUNT || too_thin(e) {
        seq![e]
    } else {
        proof {
            lemma_split_shrinks(e);
        }
        chunks_of(split_spec(e)[0]) + chunks_of(split_spec(e)[1])
    }
}

/// Splits `e` recursively until every piece holds at most
/// `EXTENT_CHUNK_TILE_COUNT` tiles or is too thin to split further.
pub fn split_tile_extent_recursive(e: InputTileZoomExtent) -> (r: Vec<InputTileZoomExtent>)
    requires
        e.wf(),
    ensures
        r@ == chunks_of(e),
    decreases e.count(),
{
    if e.tile_count() <= EXTENT_CHUNK_TILE_COUNT {
        return vec![e];
    }
    let halves = split_tile_extent(e);
    if halves.len() < 2 {
        return vec![e];
    }
    proof {
        lemma_split_shrinks(e);
    }
    let mut ret = split_tile_extent_recursive(halves[0]);
    let mut rest = split_tile_extent_recursive(halves[1]);
    ret.append(&mut rest);
    ret
}

/// Every chunk is well formed, at the zoom of the extent, and holds at most
/// `EXTENT_CHUNK_TILE_COUNT` tiles unless one of its sides is at most four
/// tiles long (half its span is at most one tile, so it is not split).
pub proof fn lemma_chunks_bounded(e: InputTileZoomExtent)
    requires
        e.wf(),
    ensures
        forall|i: int|
            0 <= i < chunks_of(e).len() ==> {
                let c = #[trigger] chunks_of(e)[i];
                &&& c.wf()
                &&& c.zoom == e.zoom
                &&& (c.count() <= EXTENT_CHUNK_TILE_COUNT || c.width() <= 4 || c.height() <= 4)
            },
    decreases e.count(),
{
    if e.count() <= EXTENT_CHUNK_TILE_COUNT || too_thin(e) {
    } else {
        lemma_split_shrinks(e);
        let s = split_spec(e);
        lemma_chunks_bounded(s[0]);
        lemma_chunks_bounded(s[1]);
        let a = chunks_of(s[0]);
        let b = chunks_of(s[1]);
        assert forall|i: int| 0 <= i < chunks_of(e).len() implies {
            let c = #[trigger] chunks_of(e)[i];
            &&& c.wf()
            &&& c.zoom == e.zoom
            &&& (c.count() <= EXTENT_CHUNK_TILE_COUNT || c.width() <= 4 || c.height() <= 4)
        } by {
            if i < a.len() {
                assert(chunks_of(e)[i] == a[i]);
            } else {
                assert(chunks_of(e)[i] == b[i - a.len()]);
            }
        }
    }
}

/// The chunks of each extent, in order.
pub open spec fn all_chunks(es: Seq<InputTileZoomExtent>, n: int) -> Seq<InputTileZoomExtent>
    decreases n,
{
    if n <= 0 {
        seq![]
    } else {
        all_chunks(es, n - 1) + chunks_of(es[n - 1])
    }
}

/// Cuts the per-zoom extents of an archive into chunks for the reader
/// workers.
pub fn split_extents(extents: &Vec<InputTileZoomExtent>) -> (r: Vec<InputTileZoomExtent>)
    requires
        forall|i: int| 0 <= i < extents@.len() ==> (#[trigger] extents@[i]).wf(),
    ensures
        r@ == all_chunks(extents@, extents@.len() as int),
{
    let mut out: Vec<InputTileZoomExtent> = Vec::new();
    let mut i: usize = 0;
    while i < extents.len()
        invariant
            0 <= i <= extents@.len(),
            forall|j: int| 0 <= j < extents@.len() ==> (#[trigger] extents@[j]).wf(),
            out@ == all_chunks(extents@, i as int),
        decreases extents@.len() - i,
    {
        let e = extents[i];
        if e.tile_count() > EXTENT_CHUNK_TILE_COUNT {
            let mut more = split_tile_extent_recursive(e);
            out.append(&mut more);
        } else {
            out.push(e);
            assert(chunks_of(e) == seq![e]);
        }
        i = i + 1;
    }
    out
}

/// How many worker threads to run on a machine with `cpus` processors: two
/// fewer than the processors, and at least two.
pub open spec fn workers_for(cpus: int) -> int {
    if cpus >= 4 {
        cpus - 2
    } else {
        2
    }
}

/// The worker count for `cpus` processors; see `workers_for`.
pub fn worker_count_for(cpus: usize) -> (r: usize)
    ensures
        r == workers_for(cpus as int),
{
    if cpus >= 4 {
        cpus - 2
    } else {
        2
    }
}

/// Relies on num_cpus::get: the number of processors this process may use.
#[verifier::external_body]
fn available_cpus() -> (r: usize) {
    num_cpus::get()
}

/// The worker count for this machine: at least two.
pub fn worker_count() -> (r: usize)
    ensures
        r >= 2,
{
    worker_count_for(available_cpus())
}

/// The chunks that worker `worker_id` of `workers` reads: those at positions
/// `worker_id`, `worker_id + workers`, `worker_id + 2 * workers`, ...
pub open spec fn share_of(chunks: Seq<InputTileZoomExtent>, worker_id: int, workers: int) -> Seq<
    InputTileZoomExtent,
> {
    Seq::new(
        (if worker_id < chunks.len() {
            (chunks.len() - worker_id - 1) / workers + 1
        } else {
            0
        }) as nat,
        |k: int| chunks[worker_id + k * workers],
    )
}

/// The chunks of one worker, in list order; see `share_of`.
pub fn worker_share(chunks: &Vec<InputTileZoomExtent>, worker_id: usize, workers: usize) -> (r: Vec<
    InputTileZoomExtent,
>)
    requires
        workers > 0,
    ensures
        r@ == share_of(chunks@, worker_id as int, workers as int),
{
    let mut out: Vec<InputTileZoomExtent> = Vec::new();
    let n = chunks.len();
    if worker_id >= n {
        assert(out@ =~= share_of(chunks@, worker_id as int, workers as int));
        return out;
    }
    let count = (n - worker_id - 1) / workers + 1;
    let mut k: usize = 0;
    while k < count
        invariant
            n == chunks@.len(),
            workers > 0,
            worker_id < n,
            count == (n - worker_id - 1) as int / workers as int + 1,
            0 <= k <= count,
            out@.len() == k,
            forall|j: int| 0 <= j < k ==> #[trigger] out@[j] == chunks@[worker_id + j * workers],
        decreases count - k,
    {
        proof {
            let a = (n - worker_id - 1) as int;
            assert(k * workers <= a) by (nonlinear_arith)
                requires
                    k <= a / workers as int,
                    a >= 0,
                    workers > 0,
            {
                vstd::arithmetic::div_mod::lemma_fundamental_div_mod(a, workers as int);
                vstd::arithmetic::mul::lemma_mul_inequality(k as int, a / workers as int, workers as int);
            }
        }
        out.push(chunks[worker_id + k * workers]);
        k = k + 1;
    }
    assert(out@ =~= share_of(chunks@, worker_id as int, workers as int));
    out
}

/// Relies on rand's `SliceRandom::shuffle` with the thread-local generator: it
/// permutes the elements in place.
#[verifier::external_body]
fn shuffle_chunks(chunks: &mut Vec<InputTileZoomExtent>)
    ensures
        final(chunks)@.to_multiset() == old(chunks)@.to_multiset(),
        final(chunks)@.len() == old(chunks)@.len(),
{
    chunks.shuffle(&mut rand::thread_rng());
}

/// The chunks of one worker (see `share_of`) in random order, so that
/// workers do not scan neighbouring ranges in step.
pub fn shuffled_worker_share(chunks: &Vec<InputTileZoomExtent>, worker_id: usize, workers: usize) -> (r: Vec<
    InputTileZoomExtent,
>)
    requires
        workers > 0,
    ensures
        r@.to_multiset() == share_of(chunks@, worker_id as int, workers as int).to_multiset(),
        r@.len() == share_of(chunks@, worker_id as int, workers as int).len(),
{
    let mut share = worker_share(chunks, worker_id, workers);
    shuffle_chunks(&mut share);
    share
}

} // verus!
