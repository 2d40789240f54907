//! Bookkeeping of the N-body universe: particle count, force mode, the
//! octree shape, the force cache and the frame counter.
use vstd::prelude::*;
use crate::force_cache::ForceCache;
use crate::octree::{Octree, tree_wf, placed_ok, log_wf, splits_needed, log_exact, built, internal_entries_exact};

verus! {

/// Floats per particle in the particle buffer: x, y, z, vx, vy, vz, mass.
pub const STRIDE: usize = 7;

/// Highest force mode.
pub const MAX_MODE: u32 = 2;

/// How forces are computed in a step.
#[derive(Clone, Copy, Debug, PartialEq, Eq, Structural)]
pub enum ForceMode {
    /// Direct Barnes-Hut traversal.
    Exact,
    /// Quantized spherical forces, looked up in and stored to the cache
    /// when `use_cache` holds.
    Quantized { use_cache: bool },
}

/// The force mode that a mode number selects.
pub open spec fn spec_force_mode(mode: u32) -> ForceMode {
    if mode == 0 {
        ForceMode::Exact
    } else if mode == 1 {
        ForceMode::Quantized { use_cache: false }
    } else {
        ForceMode::Quantized { use_cache: mode == 2 }
    }
}

/// The integer state of a universe of `n` particles; `V` is the type of a
/// cached force vector.
pub struct Universe<V> {
    n: usize,
    mode: u32,
    tree: Octree,
    cache: ForceCache<V>,
    frame_count: u32,
}

impl<V: Copy> Universe<V> {
    pub closed spec fn particle_count(&self) -> nat {
        self.n as nat
    }

    pub closed spec fn mode(&self) -> u32 {
        self.mode
    }

    pub closed spec fn frames(&self) -> u32 {
        self.frame_count
    }

    pub closed spec fn octree(&self) -> Octree {
        self.tree
    }

    pub closed spec fn force_cache(&self) -> ForceCache<V> {
        self.cache
    }

    /// Within a step the cache holds one force per miss: the number of
    /// cached forces equals the miss count.
    pub open spec fn cache_tracks_misses(&self) -> bool {
        self.force_cache().entries().len() == self.force_cache().miss_count()
    }

    /// The buffer of `n` particles fits in memory, the mode is in range
    /// and the tree is well formed.
    pub closed spec fn wf(&self) -> bool {
        &&& self.n * STRIDE <= usize::MAX
        &&& self.mode <= MAX_MODE
        &&& self.tree.wf()
        &&& (self.n == 0 ==> self.tree.nodes().len() == 0)
    }

    /// The state right after a step has opened and built its tree from
    /// `paths`: the tree and log are those built from the paths, and the
    /// cache is empty with both counters at zero.
    pub open spec fn step_opened(&self, paths: Seq<u64>) -> bool {
        &&& paths.len() == self.particle_count()
        &&& (paths.len() > 0 ==> (self.octree().nodes(), self.octree().log()) == built(
            paths,
            paths.len(),
        ))
        &&& (paths.len() == 0 ==> self.octree().nodes().len() == 0)
        &&& self.force_cache().entries() == Map::<u64, V>::empty()
        &&& self.force_cache().hit_count() == 0
        &&& self.force_cache().miss_count() == 0
    }

    /// A universe of `n` particles in mode 0, with no tree, an empty cache
    /// and no frames.
    pub fn new(n: usize) -> (u: Self)
        requires
            n * STRIDE <= usize::MAX,
        ensures
            u.wf(),
            u.particle_count() == n,
            u.mode() == 0,
            u.frames() == 0,
            u.octree().nodes().len() == 0,
            u.force_cache().entries() == Map::<u64, V>::empty(),
            u.force_cache().hit_count() == 0,
            u.force_cache().miss_count() == 0,
    {
        Universe { n, mode: 0, tree: Octree::new(), cache: ForceCache::new(), frame_count: 0 }
    }

    /// Length of the particle buffer: `STRIDE` floats per particle.
    pub fn buffer_len(&self) -> (r: usize)
        requires
            self.wf(),
        ensures
            r == self.particle_count() * STRIDE,
    {
        self.n * STRIDE
    }

    pub fn num_particles(&self) -> (r: usize)
        ensures
            r == self.particle_count(),
    {
        self.n
    }

    /// Selects the force mode; modes above the highest are clamped to it.
    pub fn set_mode(&mut self, mode: u32)
        requires
            old(self).wf(),
        ensures
            final(self).wf(),
            final(self).mode() == if mode < MAX_MODE { mode } else { MAX_MODE },
            final(self).particle_count() == old(self).particle_count(),
            final(self).frames() == old(self).frames(),
            final(self).octree() == old(self).octree(),
            final(self).force_cache() == old(self).force_cache(),
    {
        self.mode = if mode < MAX_MODE { mode } else { MAX_MODE };
    }

    pub fn get_mode(&self) -> (r: u32)
        ensures
            r == self.mode(),
    {
        self.mode
    }

    /// How forces are computed in the current mode.
    pub fn force_mode(&self) -> (r: ForceMode)
        ensures
            r == spec_force_mode(self.mode()),
    {
        if self.mode == 0 {
            ForceMode::Exact
        } else if self.mode == 1 {
            ForceMode::Quantized { use_cache: false }
        } else {
            ForceMode::Quantized { use_cache: self.mode == 2 }
        }
    }

    pub fn cache_hits(&self) -> (r: u32)
        ensures
            r == self.force_cache().hit_count(),
    {
        self.cache.hits()
    }

    pub fn cache_misses(&self) -> (r: u32)
        ensures
            r == self.force_cache().miss_count(),
    {
        self.cache.misses()
    }

    /// Cache lookups made since the last reset: hits plus misses.
    pub fn cache_lookups(&self) -> (r: u32)
        requires
            self.force_cache().hit_count() + self.force_cache().miss_count() <= u32::MAX,
        ensures
            r == self.force_cache().hit_count() + self.force_cache().miss_count(),
    {
        self.cache.hits() + self.cache.misses()
    }

    /// Number of cached forces, as a `u32` (truncated).
    pub fn cache_size(&self) -> (r: u32)
        ensures
            r == self.force_cache().entries().len() as u32,
    {
        self.cache.len() as u32
    }

    pub fn frame_count(&self) -> (r: u32)
        ensures
            r == self.frames(),
    {
        self.frame_count
    }

    /// Number of octree nodes, as a `u32` (truncated).
    pub fn tree_node_count(&self) -> (r: u32)
        ensures
            r == self.octree().nodes().len() as u32,
    {
        self.tree.node_count() as u32
    }

    /// The octree of the last step.
    pub fn tree(&self) -> (r: &Octree)
        ensures
            *r == self.octree(),
    {
        &self.tree
    }

    /// Zeroes the frame counter and the cache counters.
    pub fn reset_stats(&mut self)
        requires
            old(self).wf(),
        ensures
            final(self).wf(),
            final(self).frames() == 0,
            final(self).force_cache().hit_count() == 0,
            final(self).force_cache().miss_count() == 0,
            final(self).force_cache().entries() == old(self).force_cache().entries(),
            final(self).particle_count() == old(self).particle_count(),
            final(self).mode() == old(self).mode(),
            final(self).octree() == old(self).octree(),
    {
        self.frame_count = 0;
        self.cache.reset_counters();
    }

    /// Opens a step: the cache is emptied and its counters zeroed.
    pub fn begin_step(&mut self)
        requires
            old(self).wf(),
        ensures
            final(self).wf(),
            final(self).force_cache().entries() == Map::<u64, V>::empty(),
            final(self).force_cache().hit_count() == 0,
            final(self).force_cache().miss_count() == 0,
            final(self).cache_tracks_misses(),
            final(self).particle_count() == old(self).particle_count(),
            final(self).mode() == old(self).mode(),
            final(self).frames() == old(self).frames(),
            final(self).octree() == old(self).octree(),
    {
        self.cache.clear();
    }

    /// Rebuilds the octree from the particles' octant paths (see
    /// `Octree::build`); with no particles the tree is kept.
    pub fn build_octree(&mut self, paths: &Vec<u64>)
        requires
            old(self).wf(),
            paths@.len() == old(self).particle_count(),
            paths@.len() <= i32::MAX,
        ensures
            final(self).wf(),
            paths@.len() == 0 ==> final(self).octree() == old(self).octree(),
            paths@.len() == 0 ==> final(self).octree().nodes().len() == 0,
            paths@.len() > 0 ==> (final(self).octree().nodes(), final(self).octree().log())
                == built(paths@, paths@.len()),
            paths@.len() > 0 ==> {
                let t = final(self).octree();
                &&& tree_wf(t.nodes(), t.depths())
                &&& t.nodes()[0].id == 0
                &&& placed_ok(
                    t.nodes(),
                    t.depths(),
                    t.log(),
                    paths@,
                    Set::new(|q: int| 0 <= q < paths@.len()),
                )
                &&& log_wf(t.nodes(), t.depths(), t.log(), paths@.len() as int)
                &&& splits_needed(t.nodes(), paths@)
                &&& log_exact(
                    t.nodes(),
                    t.log(),
                    paths@,
                    Set::new(|q: int| 0 <= q < paths@.len()),
                )
                &&& t.nodes().len() <= 1 + 168 * (paths@.len() - 1)
                &&& internal_entries_exact(t.nodes(), t.log(), paths@)
            },
            final(self).particle_count() == old(self).particle_count(),
            final(self).mode() == old(self).mode(),
            final(self).frames() == old(self).frames(),
            final(self).force_cache() == old(self).force_cache(),
    {
        if self.n == 0 {
            return;
        }
        self.tree.build(paths);
    }

    /// The cached force under `key`; a found force counts as a hit.
    pub fn cache_lookup(&mut self, key: u64) -> (r: Option<V>)
        requires
            old(self).wf(),
            old(self).force_cache().hit_count() < u32::MAX,
        ensures
            final(self).wf(),
            final(self).force_cache().entries() == old(self).force_cache().entries(),
            final(self).force_cache().miss_count() == old(self).force_cache().miss_count(),
            old(self).cache_tracks_misses() ==> final(self).cache_tracks_misses(),
            match r {
                Some(v) => {
                    &&& old(self).force_cache().entries().contains_key(key)
                    &&& v == old(self).force_cache().entries()[key]
                    &&& final(self).force_cache().hit_count() == old(self).force_cache().hit_count()
                        + 1
                },
                None => {
                    &&& !old(self).force_cache().entries().contains_key(key)
                    &&& final(self).force_cache().hit_count() == old(
                        self,
                    ).force_cache().hit_count()
                },
            },
            final(self).particle_count() == old(self).particle_count(),
            final(self).mode() == old(self).mode(),
            final(self).frames() == old(self).frames(),
            final(self).octree() == old(self).octree(),
    {
        self.cache.lookup(key)
    }

    /// Whether a force is cached under `key` (not counted).
    pub fn cache_contains(&self, key: u64) -> (r: bool)
        ensures
            r == self.force_cache().entries().contains_key(key),
    {
        self.cache.contains(key)
    }

    /// Stores a force computed after a failed lookup of `key`; this counts
    /// as a miss.
    pub fn cache_store(&mut self, key: u64, value: V)
        requires
            old(self).wf(),
            old(self).force_cache().miss_count() < u32::MAX,
            !old(self).force_cache().entries().contains_key(key),
        ensures
            final(self).wf(),
            old(self).cache_tracks_misses() ==> final(self).cache_tracks_misses(),
            final(self).force_cache().entries() == old(self).force_cache().entries().insert(
                key,
                value,
            ),
            final(self).force_cache().hit_count() == old(self).force_cache().hit_count(),
            final(self).force_cache().miss_count() == old(self).force_cache().miss_count() + 1,
            final(self).particle_count() == old(self).particle_count(),
            final(self).mode() == old(self).mode(),
            final(self).frames() == old(self).frames(),
            final(self).octree() == old(self).octree(),
    {
        self.cache.store(key, value);
    }

    /// Closes a step: one more frame.
    pub fn finish_step(&mut self)
        requires
            old(self).wf(),
            old(self).frames() < u32::MAX,
        ensures
            final(self).wf(),
            final(self).frames() == old(self).frames() + 1,
            final(self).particle_count() == old(self).particle_count(),
            final(self).mode() == old(self).mode(),
            final(self).octree() == old(self).octree(),
            final(self).force_cache() == old(self).force_cache(),
    {
        self.frame_count = self.frame_count + 1;
    }
}

/// A step forgets the history before it: two universes of the same
/// particles whose steps opened with the same octant paths have the same
/// tree, the same placement log, the same node count, an empty cache and
/// zero counters, whatever their caches, counters and trees were before.
pub proof fn lemma_step_forgets_history<V: Copy>(
    u1: Universe<V>,
    u2: Universe<V>,
    paths: Seq<u64>,
)
    requires
        u1.wf(),
        u2.wf(),
        u1.step_opened(paths),
        u2.step_opened(paths),
    ensures
        u1.octree().nodes() == u2.octree().nodes(),
        u1.octree().log() == u2.octree().log(),
        u1.octree().nodes().len() as u32 == u2.octree().nodes().len() as u32,
        u1.force_cache().entries() == u2.force_cache().entries(),
        u1.force_cache().entries().len() == 0,
        u1.force_cache().hit_count() == u2.force_cache().hit_count(),
        u1.force_cache().miss_count() == u2.force_cache().miss_count(),
{
    if paths.len() == 0 {
        assert(u1.octree().nodes() =~= u2.octree().nodes());
        u1.octree().lemma_empty_log();
        u2.octree().lemma_empty_log();
        assert(u1.octree().log() =~= u2.octree().log());
    }
}

/// The mode of a universe never leaves `0 ..= MAX_MODE`, so it always
/// selects one of the three force modes: exact, quantized, or quantized
/// with the cache.
pub proof fn lemma_mode_in_range<V: Copy>(u: Universe<V>)
    requires
        u.wf(),
    ensures
        u.mode() <= MAX_MODE,
        spec_force_mode(u.mode()) == (if u.mode() == 0 {
            ForceMode::Exact
        } else {
            ForceMode::Quantized { use_cache: u.mode() == 2 }
        }),
{
}

} // verus!
