//! Chunked item-by-item matrices: one tile at a time is fetched from the
//! store and filled by a pairwise kernel.
use crate::chunks::{
    fetch_sides, fill_means, filling_is, missing_are, missing_users, sides_fetched,
};
use crate::config::{Config, MatrixConfig, Ratio};
use crate::deviation::{deviation_tile, deviation_tile_is};
use crate::error::ErrorKind;
use crate::mean_cache::{evict, MeanCache, MeanEntry};
use crate::pairing::{Centered, Term};
use crate::score::{finite, negate};
use crate::similarity::{similarity_tile, similarity_tile_is, tile_reads};
use crate::store::{Controller, ItemRaters};
use crate::tile::{
    deviation_lookup, deviation_wf, similarity_lookup, similarity_wf, Cells, Tile,
};
use vstd::prelude::*;

verus! {

/// The sizes after one step of shrinking: both halved, where the store's
/// estimate exceeds the target and a size is left to halve; nothing
/// otherwise.
pub open spec fn shrunk(rows: usize, columns: usize, estimate: Option<usize>, target: usize) -> Option<
    (usize, usize),
> {
    if estimate.is_some() && estimate.unwrap() > target && (rows > 0 || columns > 0) {
        Some(((rows / 2) as usize, (columns / 2) as usize))
    } else {
        None
    }
}

/// One step of shrinking the chunk sizes.
pub fn next_sizes(rows: usize, columns: usize, estimate: Option<usize>, target: usize) -> (r: Option<
    (usize, usize),
>)
    ensures
        r == shrunk(rows, columns, estimate, target),
        r matches Some(s) ==> s.0 <= rows && s.1 <= columns && s.0 + s.1 < rows + columns,
{
    match estimate {
        Some(size) => {
            if size > target && (rows > 0 || columns > 0) {
                Some((rows / 2, columns / 2))
            } else {
                None
            }
        },
        None => None,
    }
}

/// What a matrix makes of the store's estimate: the estimate, or
/// `NotImplemented` where the store gives none.
pub open spec fn estimate_of(answer: Option<usize>) -> Result<usize, ErrorKind> {
    match answer {
        Some(n) => Ok(n),
        None => Err(ErrorKind::NotImplemented),
    }
}

/// `r` are the sizes that shrinking ends with from `rows` by `columns`:
/// the store is asked for its estimate of the sizes at hand, which are
/// both halved while that estimate exceeds `target` and they are not both
/// zero.
pub open spec fn shrinks_to<C: Controller>(
    store: &C,
    target: usize,
    rows: usize,
    columns: usize,
    r: (usize, usize),
) -> bool
    decreases rows + columns,
{
    exists|estimate: Option<usize>|
        #![trigger store.estimates(rows, columns, estimate)]
        store.estimates(rows, columns, estimate) && match shrunk(rows, columns, estimate, target) {
            Some(next) => next.0 + next.1 < rows + columns && shrinks_to(
                store,
                target,
                next.0,
                next.1,
                r,
            ),
            None => r == (rows, columns),
        }
}

/// `x` halved `k` times.
pub open spec fn halved(x: usize, k: nat) -> usize
    decreases k,
{
    if k == 0 {
        x
    } else {
        halved((x / 2) as usize, (k - 1) as nat)
    }
}

/// Shrinking halves both sizes the same number of times.
pub proof fn lemma_shrinks_by_halving<C: Controller>(
    store: &C,
    target: usize,
    rows: usize,
    columns: usize,
    r: (usize, usize),
)
    requires
        shrinks_to(store, target, rows, columns, r),
    ensures
        exists|k: nat| r == (#[trigger] halved(rows, k), halved(columns, k)),
    decreases rows + columns,
{
    let estimate = choose|estimate: Option<usize>|
        #![trigger store.estimates(rows, columns, estimate)]
        store.estimates(rows, columns, estimate) && match shrunk(rows, columns, estimate, target) {
            Some(next) => next.0 + next.1 < rows + columns && shrinks_to(
                store,
                target,
                next.0,
                next.1,
                r,
            ),
            None => r == (rows, columns),
        };
    match shrunk(rows, columns, estimate, target) {
        Some(next) => {
            lemma_shrinks_by_halving(store, target, next.0, next.1, r);
            let k = choose|k: nat| r == (#[trigger] halved(next.0, k), halved(next.1, k));
            assert(r == (halved(rows, k + 1), halved(columns, k + 1)));
        },
        None => {
            assert(r == (halved(rows, 0), halved(columns, 0)));
        },
    }
}

/// `r` are the sizes that optimizing ends with from `m` by `n`: where the
/// store gives no estimate of them they stay; else they shrink until the
/// store's estimate no longer exceeds `threshold` of that first estimate,
/// rounded down.
pub open spec fn optimized<C: Controller>(
    store: &C,
    threshold: Ratio,
    m: usize,
    n: usize,
    r: (usize, usize),
) -> bool {
    exists|first: Option<usize>|
        #![trigger store.estimates(m, n, first)]
        store.estimates(m, n, first) && match first {
            Some(size) => shrinks_to(store, threshold.floor_of(size as nat) as usize, m, n, r),
            None => r == (m, n),
        }
}

/// Shrinks the sizes `m` by `n` step by step while the store's estimate
/// exceeds `threshold` of its first estimate; leaves them alone where the
/// store gives no estimate.
fn optimized_sizes<C: Controller>(controller: &C, threshold: Ratio, m: usize, n: usize) -> (r: (
    usize,
    usize,
))
    ensures
        optimized(controller, threshold, m, n, r),
        r.0 <= m,
        r.1 <= n,
{
    let first: usize = match controller.approximate_chunk_size(m, n) {
        Some(size) => size,
        None => {
            return (m, n);
        },
    };
    let target: usize = threshold.scale_down(first);
    let mut rows: usize = m;
    let mut columns: usize = n;
    loop
        invariant
            rows <= m,
            columns <= n,
            controller.estimates(m, n, Some(first)),
            target == threshold.floor_of(first as nat),
            forall|r: (usize, usize)| #[trigger]
                shrinks_to(controller, target, rows, columns, r) ==> shrinks_to(
                    controller,
                    target,
                    m,
                    n,
                    r,
                ),
        decreases rows + columns,
    {
        let estimate = controller.approximate_chunk_size(rows, columns);
        match next_sizes(rows, columns, estimate, target) {
            Some((p, q)) => {
                assert forall|r: (usize, usize)| #[trigger]
                    shrinks_to(controller, target, p, q, r) implies shrinks_to(
                    controller,
                    target,
                    m,
                    n,
                    r,
                ) by {
                    assert(shrinks_to(controller, target, rows, columns, r));
                }
                rows = p;
                columns = q;
            },
            None => {
                assert(shrinks_to(controller, target, rows, columns, (rows, columns)));
                return (rows, columns);
            },
        }
    }
}

/// `r` and the tile `cells` are what building the deviation tile at row
/// chunk `i` of `m` items and column chunk `j` of `n` items comes to: the
/// sides are fetched; a failure to do so is the result and leaves no tile;
/// else the build succeeds with the deviation tile of the fetched sides.
pub open spec fn deviation_built<C: Controller, K: Fn(&Vec<Term>) -> Option<i64>>(
    store: &C,
    kernel: &K,
    i: usize,
    j: usize,
    m: usize,
    n: usize,
    cells: Cells,
    r: Result<(), ErrorKind>,
) -> bool {
    exists|sides: Result<(Vec<ItemRaters>, Vec<ItemRaters>), ErrorKind>|
        #![trigger sides_fetched(store, i, j, m, n, sides)]
        sides_fetched(store, i, j, m, n, sides) && match sides {
            Err(e) => r == Err::<(), ErrorKind>(e) && cells == Map::<u64, Map<u64, i64>>::empty(),
            Ok(s) => r is Ok && deviation_tile_is(kernel, cells, s.0@, s.1@),
        }
}

/// The cache after the shrink that opens the build of a similarity tile:
/// evicted down to `kept` entries where it held more than `limit`.
pub open spec fn after_shrink(cache: Seq<MeanEntry>, limit: nat, kept: nat) -> Seq<MeanEntry> {
    if cache.len() > limit {
        evict(cache, kept)
    } else {
        cache
    }
}

/// `r`, the tile `cells` and the cache `after` are what building the
/// similarity tile at row chunk `i` of `m` items and column chunk `j` of
/// `n` items comes to on the cache `before`: the sides are fetched, and a
/// failure to do so is the result, with no tile and the cache as it was;
/// else the cache is shrunk to `shrunk`, and the means of the raters that
/// it lacks are asked of the store in batches of `batch`; a failure there
/// is the result, with no tile and the cache as far as it was filled; else
/// the build succeeds with the similarity tile of the fetched sides on the
/// filled cache, and each mean that was read for it counts as a read.
pub open spec fn similarity_built<C: Controller, K: Fn(&Vec<Centered>) -> Option<i64>>(
    store: &C,
    kernel: &K,
    batch: usize,
    i: usize,
    j: usize,
    m: usize,
    n: usize,
    before: Seq<MeanEntry>,
    shrunk: Seq<MeanEntry>,
    after: Seq<MeanEntry>,
    cells: Cells,
    r: Result<(), ErrorKind>,
) -> bool {
    exists|sides: Result<(Vec<ItemRaters>, Vec<ItemRaters>), ErrorKind>|
        #![trigger sides_fetched(store, i, j, m, n, sides)]
        sides_fetched(store, i, j, m, n, sides) && match sides {
            Err(e) => r == Err::<(), ErrorKind>(e) && after == before && cells == Map::<
                u64,
                Map<u64, i64>,
            >::empty(),
            Ok(s) => exists|missing: Seq<u64>, mid: Seq<MeanEntry>, filled: Result<(), ErrorKind>|
                #![trigger filling_is(store, missing, batch, shrunk, mid, filled)]
                missing_are(missing, s.0@, s.1@, shrunk) && filling_is(
                    store,
                    missing,
                    batch,
                    shrunk,
                    mid,
                    filled,
                ) && match filled {
                    Err(e) => r == Err::<(), ErrorKind>(e) && after == mid && cells == Map::<
                        u64,
                        Map<u64, i64>,
                    >::empty(),
                    Ok(_) => r is Ok && similarity_tile_is(kernel, cells, mid, s.0@, s.1@) && after
                        == tile_reads(mid, cells, s.0@, s.1@),
                },
        }
}

/// A matrix of which one tile at a time is held.
pub trait ChunkedMatrix {
    /// The tile that is held; empty while none is.
    spec fn cells(&self) -> Cells;

    /// The kernel accepts every input.
    spec fn ready(&self) -> bool;

    /// The chunk sizes: rows, then columns.
    spec fn sizes(&self) -> (usize, usize);

    /// The store's estimate of the ratings in one tile of the current sizes.
    fn approximate_chunk_size(&self) -> (r: Result<usize, ErrorKind>);

    /// Shrinks the chunk sizes while the store's estimate exceeds the
    /// configured share of the first estimate.
    fn optimize_chunks_size(&mut self)
        ensures
            final(self).ready() == old(self).ready(),
            final(self).cells() == old(self).cells(),
            final(self).sizes().0 <= old(self).sizes().0,
            final(self).sizes().1 <= old(self).sizes().1,
    ;

    /// Replaces the tile by the one at row chunk `i`, column chunk `j`.
    /// After a failure no tile is held.
    fn calculate_chunk(&mut self, i: usize, j: usize) -> (r: Result<(), ErrorKind>)
        requires
            old(self).ready(),
        ensures
            final(self).ready(),
            final(self).sizes() == old(self).sizes(),
            r is Err ==> final(self).cells() == Map::<u64, Map<u64, i64>>::empty(),
    ;

    /// The value of the held tile for the pair `(a, b)`.
    fn get_value(&self, a: u64, b: u64) -> (r: Option<i64>);
}

/// The slope-one deviation matrix.
pub struct DeviationMatrix<'a, C: Controller, K: Fn(&Vec<Term>) -> Option<i64>> {
    controller: &'a C,
    config: MatrixConfig,
    kernel: K,
    ver_chunk_size: usize,
    hor_chunk_size: usize,
    matrix_chunk: Tile,
}

impl<'a, C: Controller, K: Fn(&Vec<Term>) -> Option<i64>> DeviationMatrix<'a, C, K> {
    /// A matrix over `controller` with row chunks of `m` and column chunks
    /// of `n` items; `kernel` computes the deviation from the terms of two
    /// items. No tile is held yet.
    pub fn new(controller: &'a C, config: &Config, kernel: K, m: usize, n: usize) -> (r: Self)
        requires
            forall|t: &Vec<Term>| call_requires(kernel, (t,)),
        ensures
            r.ready(),
            r.sizes() == (m, n),
            r.cells() == Map::<u64, Map<u64, i64>>::empty(),
            r.config_optimizes() == config.sim_matrix.optimizes(),
            r.config_threshold() == config.sim_matrix.threshold(),
            r.store() == controller,
            *r.pairwise() == kernel,
    {
        DeviationMatrix {
            controller,
            config: config.sim_matrix,
            kernel,
            ver_chunk_size: m,
            hor_chunk_size: n,
            matrix_chunk: Tile::new(),
        }
    }
}

impl<'a, C: Controller, K: Fn(&Vec<Term>) -> Option<i64>> DeviationMatrix<'a, C, K> {
    /// Whether the settings allow shrinking the chunk sizes.
    pub closed spec fn config_optimizes(&self) -> bool {
        self.config.optimizes()
    }

    /// The store that the matrix reads.
    pub closed spec fn store(&self) -> &C {
        self.controller
    }

    /// The share of the first estimate that optimizing aims at.
    pub closed spec fn config_threshold(&self) -> Ratio {
        self.config.threshold()
    }

    /// The kernel that computes the deviation of two items.
    pub closed spec fn pairwise(&self) -> &K {
        &self.kernel
    }

    /// The tile that is held.
    pub fn chunk(&self) -> (t: &Tile)
        ensures
            t@ == self.cells(),
    {
        &self.matrix_chunk
    }

    /// The chunk sizes: rows, then columns.
    pub fn chunk_sizes(&self) -> (r: (usize, usize))
        ensures
            r == self.sizes(),
    {
        (self.ver_chunk_size, self.hor_chunk_size)
    }
}

impl<'a, C: Controller, K: Fn(&Vec<Term>) -> Option<i64>> ChunkedMatrix for DeviationMatrix<
    'a,
    C,
    K,
> {
    closed spec fn cells(&self) -> Cells {
        self.matrix_chunk@
    }

    closed spec fn ready(&self) -> bool {
        forall|t: &Vec<Term>| call_requires(self.kernel, (t,))
    }

    closed spec fn sizes(&self) -> (usize, usize) {
        (self.ver_chunk_size, self.hor_chunk_size)
    }

    fn approximate_chunk_size(&self) -> (r: Result<usize, ErrorKind>)
        ensures
            exists|answer: Option<usize>|
                #![trigger self.store().estimates(self.sizes().0, self.sizes().1, answer)]
                self.store().estimates(self.sizes().0, self.sizes().1, answer) && r == estimate_of(
                    answer,
                ),
    {
        let answer = self.controller.approximate_chunk_size(
            self.ver_chunk_size,
            self.hor_chunk_size,
        );
        assert(self.store().estimates(self.sizes().0, self.sizes().1, answer));
        match answer {
            Some(n) => Ok(n),
            None => Err(ErrorKind::NotImplemented),
        }
    }

    fn optimize_chunks_size(&mut self)
        ensures
            if old(self).config_optimizes() {
                optimized(
                    old(self).store(),
                    old(self).config_threshold(),
                    old(self).sizes().0,
                    old(self).sizes().1,
                    final(self).sizes(),
                )
            } else {
                final(self).sizes() == old(self).sizes()
            },
            final(self).store() == old(self).store(),
            final(self).pairwise() == old(self).pairwise(),
            final(self).config_optimizes() == old(self).config_optimizes(),
            final(self).config_threshold() == old(self).config_threshold(),
    {
        if self.config.allow_chunk_optimization() {
            let (m, n) = optimized_sizes(
                self.controller,
                self.config.chunk_size_threshold(),
                self.ver_chunk_size,
                self.hor_chunk_size,
            );
            self.ver_chunk_size = m;
            self.hor_chunk_size = n;
        }
        assert(self.kernel == old(self).kernel);
    }

    fn calculate_chunk(&mut self, i: usize, j: usize) -> (r: Result<(), ErrorKind>)
        ensures
            deviation_built(
                old(self).store(),
                old(self).pairwise(),
                i,
                j,
                old(self).sizes().0,
                old(self).sizes().1,
                final(self).cells(),
                r,
            ),
            final(self).store() == old(self).store(),
            final(self).pairwise() == old(self).pairwise(),
            final(self).config_optimizes() == old(self).config_optimizes(),
            final(self).config_threshold() == old(self).config_threshold(),
            r is Ok ==> deviation_wf(final(self).cells()),
    {
        self.matrix_chunk = Tile::new();
        let sides = fetch_sides(self.controller, i, j, self.ver_chunk_size, self.hor_chunk_size);
        assert(sides_fetched(
            self.controller,
            i,
            j,
            self.ver_chunk_size,
            self.hor_chunk_size,
            sides,
        ));
        match sides {
            Ok((ver, hor)) => {
                self.matrix_chunk = deviation_tile(&ver, &hor, &self.kernel);
                assert(self.kernel == old(self).kernel);
                Ok(())
            },
            Err(e) => {
                assert(self.kernel == old(self).kernel);
                Err(e)
            },
        }
    }

    fn get_value(&self, a: u64, b: u64) -> (r: Option<i64>)
        ensures
            r == deviation_lookup(self.cells(), a, b),
    {
        match self.matrix_chunk.cell(a, b) {
            Some(v) => Some(v),
            None => match self.matrix_chunk.cell(b, a) {
                Some(v) => if finite(v) {
                    Some(negate(v))
                } else {
                    None
                },
                None => None,
            },
        }
    }
}

/// The adjusted-cosine similarity matrix, with its cache of user means.
pub struct SimilarityMatrix<'a, C: Controller, K: Fn(&Vec<Centered>) -> Option<i64>> {
    controller: &'a C,
    config: MatrixConfig,
    kernel: K,
    ver_chunk_size: usize,
    hor_chunk_size: usize,
    adj_cosine: MeanCache,
    matrix_chunk: Tile,
}

impl<'a, C: Controller, K: Fn(&Vec<Centered>) -> Option<i64>> SimilarityMatrix<'a, C, K> {
    /// A matrix over `controller` with row chunks of `m` and column chunks
    /// of `n` items and an empty cache of means, bounded as `config` says;
    /// `kernel` computes the similarity from the centred terms of two
    /// items. No tile is held yet.
    pub fn new(controller: &'a C, config: &Config, kernel: K, m: usize, n: usize) -> (r: Self)
        requires
            forall|t: &Vec<Centered>| call_requires(kernel, (t,)),
        ensures
            r.ready(),
            r.sizes() == (m, n),
            r.cells() == Map::<u64, Map<u64, i64>>::empty(),
            r.means()@ == Seq::<MeanEntry>::empty(),
            r.means().limit() == config.mean_cache_max_entries,
            r.means().kept() == config.mean_cache_keep_ratio.ceil_of(
                config.mean_cache_max_entries as nat,
            ),
            r.config_optimizes() == config.sim_matrix.optimizes(),
            r.config_threshold() == config.sim_matrix.threshold(),
            r.store() == controller,
            *r.pairwise() == kernel,
            r.batch() == config.sim_matrix.batch(),
    {
        let cache = MeanCache::new(config.mean_cache_max_entries, config.mean_cache_keep_ratio);
        SimilarityMatrix {
            controller,
            config: config.sim_matrix,
            kernel,
            ver_chunk_size: m,
            hor_chunk_size: n,
            adj_cosine: cache,
            matrix_chunk: Tile::new(),
        }
    }

    /// A matrix over `controller` with row chunks of `m` and column chunks
    /// of `n` items, working on the means in `cache`; `kernel` computes the
    /// similarity from the centred terms of two items. No tile is held yet.
    pub fn with_cache(
        controller: &'a C,
        config: &Config,
        kernel: K,
        cache: MeanCache,
        m: usize,
        n: usize,
    ) -> (r: Self)
        requires
            forall|t: &Vec<Centered>| call_requires(kernel, (t,)),
        ensures
            r.ready(),
            r.sizes() == (m, n),
            r.cells() == Map::<u64, Map<u64, i64>>::empty(),
            r.means() == cache,
            r.config_optimizes() == config.sim_matrix.optimizes(),
            r.config_threshold() == config.sim_matrix.threshold(),
            r.store() == controller,
            *r.pairwise() == kernel,
            r.batch() == config.sim_matrix.batch(),
    {
        SimilarityMatrix {
            controller,
            config: config.sim_matrix,
            kernel,
            ver_chunk_size: m,
            hor_chunk_size: n,
            adj_cosine: cache,
            matrix_chunk: Tile::new(),
        }
    }

    /// The cache of user means.
    pub closed spec fn means(&self) -> MeanCache {
        self.adj_cosine
    }

    /// Whether the settings allow shrinking the chunk sizes.
    pub closed spec fn config_optimizes(&self) -> bool {
        self.config.optimizes()
    }

    /// The store that the matrix reads.
    pub closed spec fn store(&self) -> &C {
        self.controller
    }

    /// The share of the first estimate that optimizing aims at.
    pub closed spec fn config_threshold(&self) -> Ratio {
        self.config.threshold()
    }

    /// The kernel that computes the similarity of two items.
    pub closed spec fn pairwise(&self) -> &K {
        &self.kernel
    }

    /// How many users one mean fetch asks for.
    pub closed spec fn batch(&self) -> nat {
        self.config.batch()
    }

    /// The tile that is held.
    pub fn chunk(&self) -> (t: &Tile)
        ensures
            t@ == self.cells(),
    {
        &self.matrix_chunk
    }

    /// The chunk sizes: rows, then columns.
    pub fn chunk_sizes(&self) -> (r: (usize, usize))
        ensures
            r == self.sizes(),
    {
        (self.ver_chunk_size, self.hor_chunk_size)
    }

    /// The cache of user means.
    pub fn adj_cosine(&self) -> (c: &MeanCache)
        ensures
            *c == self.means(),
    {
        &self.adj_cosine
    }

    /// Ends the matrix and hands its cache back.
    pub fn into_cache(self) -> (cache: MeanCache)
        ensures
            cache == self.means(),
    {
        self.adj_cosine
    }
}

impl<'a, C: Controller, K: Fn(&Vec<Centered>) -> Option<i64>> ChunkedMatrix for SimilarityMatrix<
    'a,
    C,
    K,
> {
    closed spec fn cells(&self) -> Cells {
        self.matrix_chunk@
    }

    closed spec fn ready(&self) -> bool {
        forall|t: &Vec<Centered>| call_requires(self.kernel, (t,))
    }

    closed spec fn sizes(&self) -> (usize, usize) {
        (self.ver_chunk_size, self.hor_chunk_size)
    }

    fn approximate_chunk_size(&self) -> (r: Result<usize, ErrorKind>)
        ensures
            exists|answer: Option<usize>|
                #![trigger self.store().estimates(self.sizes().0, self.sizes().1, answer)]
                self.store().estimates(self.sizes().0, self.sizes().1, answer) && r == estimate_of(
                    answer,
                ),
    {
        let answer = self.controller.approximate_chunk_size(
            self.ver_chunk_size,
            self.hor_chunk_size,
        );
        assert(self.store().estimates(self.sizes().0, self.sizes().1, answer));
        match answer {
            Some(n) => Ok(n),
            None => Err(ErrorKind::NotImplemented),
        }
    }

    fn optimize_chunks_size(&mut self)
        ensures
            if old(self).config_optimizes() {
                optimized(
                    old(self).store(),
                    old(self).config_threshold(),
                    old(self).sizes().0,
                    old(self).sizes().1,
                    final(self).sizes(),
                )
            } else {
                final(self).sizes() == old(self).sizes()
            },
            final(self).store() == old(self).store(),
            final(self).pairwise() == old(self).pairwise(),
            final(self).batch() == old(self).batch(),
            final(self).config_optimizes() == old(self).config_optimizes(),
            final(self).config_threshold() == old(self).config_threshold(),
            final(self).means() == old(self).means(),
    {
        if self.config.allow_chunk_optimization() {
            let (m, n) = optimized_sizes(
                self.controller,
                self.config.chunk_size_threshold(),
                self.ver_chunk_size,
                self.hor_chunk_size,
            );
            self.ver_chunk_size = m;
            self.hor_chunk_size = n;
        }
        assert(self.kernel == old(self).kernel);
    }

    fn calculate_chunk(&mut self, i: usize, j: usize) -> (r: Result<(), ErrorKind>)
        ensures
            similarity_built(
                old(self).store(),
                old(self).pairwise(),
                old(self).batch() as usize,
                i,
                j,
                old(self).sizes().0,
                old(self).sizes().1,
                old(self).means()@,
                after_shrink(old(self).means()@, old(self).means().limit(), old(self).means().kept()),
                final(self).means()@,
                final(self).cells(),
                r,
            ),
            final(self).store() == old(self).store(),
            final(self).pairwise() == old(self).pairwise(),
            final(self).batch() == old(self).batch(),
            final(self).config_optimizes() == old(self).config_optimizes(),
            final(self).config_threshold() == old(self).config_threshold(),
            r is Ok ==> similarity_wf(final(self).cells()),
            final(self).means().limit() == old(self).means().limit(),
            final(self).means().kept() == old(self).means().kept(),
    {
        let ghost before = self.adj_cosine@;
        self.matrix_chunk = Tile::new();
        let sides = fetch_sides(self.controller, i, j, self.ver_chunk_size, self.hor_chunk_size);
        assert(sides_fetched(
            self.controller,
            i,
            j,
            self.ver_chunk_size,
            self.hor_chunk_size,
            sides,
        ));
        assert(self.kernel == old(self).kernel);
        match sides {
            Ok((ver, hor)) => {
                self.adj_cosine.shrink_means();
                let ghost shrunk = self.adj_cosine@;
                assert(shrunk == after_shrink(
                    before,
                    old(self).adj_cosine.limit(),
                    old(self).adj_cosine.kept(),
                ));
                let missing = missing_users(&ver, &hor, &self.adj_cosine);
                let batch: usize = self.config.partial_users_chunk_size();
                let filled = fill_means(self.controller, &mut self.adj_cosine, &missing, batch);
                let ghost mid = self.adj_cosine@;
                assert(filling_is(self.controller, missing@, batch, shrunk, mid, filled));
                match filled {
                    Ok(()) => {
                        self.matrix_chunk = similarity_tile(
                            &ver,
                            &hor,
                            &mut self.adj_cosine,
                            &self.kernel,
                        );
                        assert(self.kernel == old(self).kernel);
                        Ok(())
                    },
                    Err(e) => Err(e),
                }
            },
            Err(e) => Err(e),
        }
    }

    fn get_value(&self, a: u64, b: u64) -> (r: Option<i64>)
        ensures
            r == similarity_lookup(self.cells(), a, b),
    {
        match self.matrix_chunk.cell(a, b) {
            Some(v) => Some(v),
            None => self.matrix_chunk.cell(b, a),
        }
    }
}

} // verus!
