//! Arena octree: the shape of the Barnes-Hut tree.
//!
//! Each particle is described by its octant path: the octant it falls in at
//! every depth of the cube subdivision, three bits per depth.  The tree
//! stores, per node, the particle it holds (if a leaf), where its eight
//! children start in the arena, and its sequential id.  Every placement of a
//! particle into a node is recorded in order, so that the mass and centre of
//! mass of each node can be accumulated from it.
use vstd::prelude::*;

verus! {

/// Deepest level at which a leaf is still split.
pub const MAX_DEPTH: u32 = 20;

/// One node of the arena.
#[derive(Clone, Copy, Debug)]
pub struct OctNode {
    /// The particle held by this leaf, or -1.
    pub particle_index: i32,
    /// Arena index of the first of the eight children, or 0 for a leaf.
    pub children_start: usize,
    /// Sequential id, assigned in allocation order.
    pub id: u32,
}

/// The placement of a particle into a node: stored in an empty leaf, or
/// merged into a node below the depth limit.
#[derive(Clone, Copy, Debug)]
pub struct Placement {
    pub node: usize,
    pub particle: usize,
    pub merged: bool,
}

impl OctNode {
    /// A fresh empty leaf.
    pub fn new(id: u32) -> (r: OctNode)
        ensures
            r.particle_index == -1,
            r.children_start == 0,
            r.id == id,
    {
        OctNode { particle_index: -1, children_start: 0, id }
    }

    pub fn is_leaf(&self) -> (r: bool)
        ensures
            r == (self.children_start == 0),
    {
        self.children_start == 0
    }

    pub fn is_empty(&self) -> (r: bool)
        ensures
            r == (self.particle_index < 0 && self.children_start == 0),
    {
        self.particle_index < 0 && self.children_start == 0
    }

    /// This node is the leaf holding particle `p` (compared as `i32`), so
    /// that a particle exerts no force on itself.
    pub fn is_leaf_of(&self, p: usize) -> (r: bool)
        ensures
            r == (self.children_start == 0 && self.particle_index == p as i32),
    {
        self.is_leaf() && self.particle_index == p as i32
    }
}

// ------------------------------------------------------------------
// Octant paths
// ------------------------------------------------------------------

/// The octant that `path` records at `depth` (three bits per depth).
pub open spec fn octant_at(path: u64, depth: int) -> int {
    ((path >> ((3 * depth) as u64)) & 7u64) as int
}

/// An octant is below 8.
proof fn lemma_low3(x: u64)
    by (bit_vector)
    ensures
        x & 7u64 <= 7u64,
{
}

/// Octant index of a point relative to a node centre, from the three
/// comparisons `x >= cx`, `y >= cy`, `z >= cz`.
pub fn octant_index(x_high: bool, y_high: bool, z_high: bool) -> (r: usize)
    ensures
        r == (if x_high { 1int } else { 0int }) + (if y_high { 2int } else { 0int }) + (if z_high {
            4int
        } else {
            0int
        }),
        r < 8,
{
    let mut i: usize = 0;
    if x_high {
        i = i | 1;
    }
    if y_high {
        i = i | 2;
    }
    if z_high {
        i = i | 4;
    }
    proof {
        let (a, b, c) = (x_high, y_high, z_high);
        assert((0usize | 1usize) == 1usize) by (bit_vector);
        assert((0usize | 2usize) == 2usize) by (bit_vector);
        assert((1usize | 2usize) == 3usize) by (bit_vector);
        assert((0usize | 4usize) == 4usize) by (bit_vector);
        assert((1usize | 4usize) == 5usize) by (bit_vector);
        assert((2usize | 4usize) == 6usize) by (bit_vector);
        assert((3usize | 4usize) == 7usize) by (bit_vector);
    }
    i
}

/// The octant recorded in `path` at `depth`.
pub fn path_octant(path: u64, depth: u32) -> (r: usize)
    requires
        depth <= MAX_DEPTH,
    ensures
        r as int == octant_at(path, depth as int),
        r < 8,
{
    proof {
        lemma_low3(path >> ((3 * depth) as u64));
    }
    ((path >> (3 * depth as u64)) & 7) as usize
}

/// Or-ing an octant into a clear slot sets that slot and keeps the others.
proof fn lemma_set_octant(path: u64, s: u64, oct: u64, r: u64)
    by (bit_vector)
    requires
        s <= 60,
        s % 3 == 0,
        oct < 8,
        (path >> s) & 7u64 == 0,
        r == path | (oct << s),
    ensures
        (r >> s) & 7u64 == oct,
        forall|t: u64| #![trigger (r >> t)] t <= 60 && t % 3 == 0 && t != s ==> (r >> t) & 7u64 == (
        path >> t) & 7u64,
{
}

/// Records octant `oct` at `depth` in a path whose slot at `depth` is
/// still clear; the other depths are kept.
pub fn path_with_octant(path: u64, depth: u32, oct: usize) -> (r: u64)
    requires
        depth <= MAX_DEPTH,
        oct < 8,
        octant_at(path, depth as int) == 0,
    ensures
        r == path | ((oct as u64) << ((3 * depth) as u64)),
        octant_at(r, depth as int) == oct,
        forall|d: int|
            #![trigger octant_at(r, d)]
            0 <= d <= MAX_DEPTH && d != depth ==> octant_at(r, d) == octant_at(path, d),
{
    let s: u64 = 3 * depth as u64;
    let r = path | ((oct as u64) << s);
    proof {
        lemma_set_octant(path, s, oct as u64, r);
        assert forall|d: int| 0 <= d <= MAX_DEPTH && d != depth implies #[trigger] octant_at(r, d)
            == octant_at(path, d) by {
            let t = (3 * d) as u64;
            assert(t <= 60 && t % 3 == 0 && t != s);
            assert((r >> t) & 7u64 == (path >> t) & 7u64);
        }
    }
    r
}

// ------------------------------------------------------------------
// Shape of the arena
// ------------------------------------------------------------------

/// The child of node `i` that `path` enters at depth `d`.
pub open spec fn child_on_path(a: Seq<OctNode>, i: int, path: u64, d: int) -> int {
    a[i].children_start + octant_at(path, d)
}

/// The node where `path`, entered at node `i` and depth `d`, comes to rest:
/// the first leaf on the way, or the node at the depth limit.
pub open spec fn locate(a: Seq<OctNode>, i: int, path: u64, d: int) -> int
    decreases 21 - d,
{
    if d >= 21 || a[i].children_start == 0 {
        i
    } else {
        locate(a, child_on_path(a, i, path, d), path, d + 1)
    }
}

/// Whether `path`, entered at node `i` and depth `d`, goes through node `k`.
pub open spec fn passes(a: Seq<OctNode>, i: int, path: u64, d: int, k: int) -> bool
    decreases 21 - d,
{
    i == k || (d < 21 && a[i].children_start != 0 && passes(
        a,
        child_on_path(a, i, path, d),
        path,
        d + 1,
        k,
    ))
}

/// The node where a particle with octant path `path` lives: where its path
/// from the root comes to rest.
pub open spec fn home(a: Seq<OctNode>, path: u64) -> int {
    locate(a, 0, path, 0)
}

/// Every internal node's children lie after it, inside the arena.
pub open spec fn closed(a: Seq<OctNode>) -> bool {
    forall|i: int|
        0 <= i < a.len() && #[trigger] a[i].children_start != 0 ==> i < a[i].children_start
            && a[i].children_start + 8 <= a.len()
}

/// Shape invariant of a built tree with node depths `depth`.
pub open spec fn tree_wf(a: Seq<OctNode>, depth: Seq<int>) -> bool {
    &&& a.len() > 0
    &&& depth.len() == a.len()
    &&& depth[0] == 0
    &&& closed(a)
    &&& forall|i: int| 0 <= i < a.len() ==> 0 <= #[trigger] depth[i] <= 21
    &&& forall|i: int| 0 <= i < a.len() ==> (#[trigger] a[i]).id == i as u32
    &&& forall|i: int|
        0 <= i < a.len() && #[trigger] a[i].children_start != 0 ==> {
            &&& depth[i] < 21
            &&& a[i].particle_index == -1
            &&& forall|o: int|
                0 <= o < 8 ==> #[trigger] depth[a[i].children_start + o] == depth[i] + 1
        }
    &&& forall|i: int| 0 <= i < a.len() ==> (#[trigger] a[i]).particle_index >= -1
    &&& forall|i: int|
        0 <= i < a.len() && (#[trigger] a[i]).particle_index >= 0 ==> depth[i] <= MAX_DEPTH
    &&& disjoint_blocks(a)
    &&& parented(a)
    &&& a.len() == 1 + 8 * internal_count(a, a.len() as int)
}

/// Number of internal nodes among the first `k` nodes.
pub open spec fn internal_count(a: Seq<OctNode>, k: int) -> nat
    decreases k,
{
    if k <= 0 {
        0
    } else {
        internal_count(a, k - 1) + if a[k - 1].children_start != 0 {
            1nat
        } else {
            0nat
        }
    }
}

/// Node `j` lies in the child block of internal node `i`.
pub open spec fn in_block(a: Seq<OctNode>, i: int, j: int) -> bool {
    a[i].children_start != 0 && a[i].children_start <= j < a[i].children_start + 8
}

/// Node `j` is the child of some node.
pub open spec fn has_parent(a: Seq<OctNode>, j: int) -> bool {
    exists|i: int| 0 <= i < a.len() && #[trigger] in_block(a, i, j)
}

/// Every node but the root lies in the child block of an internal node.
pub open spec fn parented(a: Seq<OctNode>) -> bool {
    forall|j: int| 1 <= j < a.len() ==> #[trigger] has_parent(a, j)
}

/// The child blocks of distinct internal nodes do not overlap.
pub open spec fn disjoint_blocks(a: Seq<OctNode>) -> bool {
    forall|i: int, j: int|
        0 <= i < a.len() && 0 <= j < a.len() && i != j && #[trigger] a[i].children_start != 0
            && #[trigger] a[j].children_start != 0 ==> a[i].children_start + 8
            <= a[j].children_start || a[j].children_start + 8 <= a[i].children_start
}

/// Node `h` holds particle `q`: as its leaf particle, or merged into it at
/// the depth limit.
pub open spec fn holds(
    a: Seq<OctNode>,
    depth: Seq<int>,
    log: Seq<Placement>,
    h: int,
    q: int,
) -> bool {
    &&& 0 <= h < a.len()
    &&& (a[h].particle_index as int == q || (depth[h] == 21 && log.contains(
        Placement { node: h as usize, particle: q as usize, merged: true },
    )))
}

/// The placement log only names real nodes and particles, merges only at
/// the depth limit and stores only above it.
pub open spec fn log_wf(a: Seq<OctNode>, depth: Seq<int>, log: Seq<Placement>, n: int) -> bool {
    forall|k: int|
        0 <= k < log.len() ==> {
            let e = #[trigger] log[k];
            &&& e.node < a.len()
            &&& e.particle < n
            &&& e.merged ==> depth[e.node as int] == 21
            &&& !e.merged ==> depth[e.node as int] <= MAX_DEPTH
        }
}

/// The log names, at each leaf, exactly the particles resting there: every
/// entry naming a leaf names a particle of `placed` whose walk ends at that
/// leaf; entries naming the same leaf come in increasing particle order (so
/// none twice); and every leaf particle has its stored entry.
pub open spec fn log_exact(
    a: Seq<OctNode>,
    log: Seq<Placement>,
    paths: Seq<u64>,
    placed: Set<int>,
) -> bool {
    &&& forall|k: int|
        0 <= k < log.len() && a[(#[trigger] log[k]).node as int].children_start == 0
            ==> placed.contains(log[k].particle as int) && home(a, paths[log[k].particle as int])
            == log[k].node as int
    &&& forall|k: int, m: int|
        0 <= k < m < log.len() && (#[trigger] log[k]).node == (#[trigger] log[m]).node
            && a[log[k].node as int].children_start == 0 ==> log[k].particle < log[m].particle
    &&& forall|j: int|
        0 <= j < a.len() && (#[trigger] a[j]).particle_index >= 0 ==> log.contains(
            Placement { node: j as usize, particle: a[j].particle_index as usize, merged: false },
        )
}

/// Every log entry naming a leaf on the walk of `path` from node `i` at
/// depth `d` names a particle below `pi`.
pub open spec fn earlier_on_walk(
    a: Seq<OctNode>,
    log: Seq<Placement>,
    path: u64,
    i: int,
    d: int,
    pi: int,
) -> bool {
    forall|k: int|
        0 <= k < log.len() && a[(#[trigger] log[k]).node as int].children_start == 0 && passes(
            a,
            i,
            path,
            d,
            log[k].node as int,
        ) ==> log[k].particle < pi
}

/// The arena after splitting leaf `ni`: it points at eight fresh empty
/// leaves appended at the end, and no longer holds a particle.
pub open spec fn split_arena(a: Seq<OctNode>, ni: int) -> Seq<OctNode> {
    a.update(
        ni,
        OctNode { particle_index: -1i32, children_start: a.len() as usize, id: a[ni].id },
    ) + Seq::new(
        8,
        |o: int| OctNode { particle_index: -1i32, children_start: 0, id: (a.len() + o) as u32 },
    )
}

/// Arena and log after placing particle `pi` (octant path `paths[pi]`)
/// below node `ni` at depth `d`: merged below the split depth, stored in an
/// empty leaf, or, at an occupied leaf, the leaf is split and its particle
/// goes down before `pi` does; an internal node passes `pi` to its child.
pub open spec fn inserted(
    a: Seq<OctNode>,
    log: Seq<Placement>,
    paths: Seq<u64>,
    ni: int,
    pi: int,
    d: int,
) -> (Seq<OctNode>, Seq<Placement>)
    decreases 21 - d,
{
    if d > MAX_DEPTH {
        (a, log.push(Placement { node: ni as usize, particle: pi as usize, merged: true }))
    } else if a[ni].children_start == 0 && a[ni].particle_index < 0 {
        (
            a.update(ni, OctNode { particle_index: pi as i32, ..a[ni] }),
            log.push(Placement { node: ni as usize, particle: pi as usize, merged: false }),
        )
    } else if a[ni].children_start == 0 {
        let old_pi = a[ni].particle_index as int;
        let cs = a.len() as int;
        let (a3, l3) = inserted(
            split_arena(a, ni),
            log,
            paths,
            cs + octant_at(paths[old_pi], d),
            old_pi,
            d + 1,
        );
        inserted(a3, l3, paths, cs + octant_at(paths[pi], d), pi, d + 1)
    } else {
        inserted(a, log, paths, a[ni].children_start + octant_at(paths[pi], d), pi, d + 1)
    }
}

/// Arena and log after building the tree of particles `0 .. k`: a root
/// leaf, then each particle inserted in order from the root.
pub open spec fn built(paths: Seq<u64>, k: nat) -> (Seq<OctNode>, Seq<Placement>)
    decreases k,
{
    if k == 0 {
        (
            Seq::empty().push(OctNode { particle_index: -1i32, children_start: 0, id: 0 }),
            Seq::empty(),
        )
    } else {
        let (a, l) = built(paths, (k - 1) as nat);
        inserted(a, l, paths, 0, k - 1, 0)
    }
}

/// Log entry `k` names node `j`.
pub open spec fn names(log: Seq<Placement>, k: int, j: int) -> bool {
    0 <= k < log.len() && log[k].node as int == j
}

/// The log names each internal node exactly once, by the stored placement
/// of the particle that rested there before the node was split: the
/// smallest particle whose walk goes through the node.
pub open spec fn internal_entries_exact(
    a: Seq<OctNode>,
    log: Seq<Placement>,
    paths: Seq<u64>,
) -> bool {
    &&& forall|j: int|
        0 <= j < a.len() && #[trigger] a[j].children_start != 0 ==> exists|k: int|
            #[trigger] names(log, k, j)
    &&& forall|k: int, m: int|
        #[trigger] names(log, k, log[m].node as int) && #[trigger] names(log, m, log[k].node as int)
            && a[log[k].node as int].children_start != 0 ==> k == m
    &&& forall|k: int|
        0 <= k < log.len() && a[(#[trigger] log[k]).node as int].children_start != 0 ==> {
            &&& !log[k].merged
            &&& passes(a, 0, paths[log[k].particle as int], 0, log[k].node as int)
            &&& forall|q: int|
                0 <= q < paths.len() && #[trigger] passes(a, 0, paths[q], 0, log[k].node as int)
                    ==> log[k].particle <= q
        }
}

/// `b` grows from `a`: old nodes keep their children, or an old leaf gains
/// children at the end of `a`.
pub open spec fn grows(a: Seq<OctNode>, b: Seq<OctNode>) -> bool {
    &&& b.len() >= a.len()
    &&& forall|j: int|
        0 <= j < a.len() ==> (#[trigger] b[j]).children_start == a[j].children_start || (
        a[j].children_start == 0 && b[j].children_start >= a.len())
}

/// Every particle in `placed` is held by its home node, and every leaf
/// particle belongs to `placed` and has that leaf as its home.
pub open spec fn placed_ok(
    a: Seq<OctNode>,
    depth: Seq<int>,
    log: Seq<Placement>,
    paths: Seq<u64>,
    placed: Set<int>,
) -> bool {
    &&& forall|q: int|
        #[trigger] placed.contains(q) ==> 0 <= q < paths.len() && holds(
            a,
            depth,
            log,
            home(a, paths[q]),
            q,
        )
    &&& forall|j: int|
        0 <= j < a.len() && (#[trigger] a[j]).particle_index >= 0 ==> placed.contains(
            a[j].particle_index as int,
        ) && home(a, paths[a[j].particle_index as int]) == j
}

/// Two different particles walk through node `i`.
pub open spec fn shared_by_two(a: Seq<OctNode>, paths: Seq<u64>, i: int) -> bool {
    exists|q: int, r: int|
        0 <= q < paths.len() && 0 <= r < paths.len() && q != r && #[trigger] passes(
            a,
            0,
            paths[q],
            0,
            i,
        ) && #[trigger] passes(a, 0, paths[r], 0, i)
}

/// A node is split only when two particles walk through it.
pub open spec fn splits_needed(a: Seq<OctNode>, paths: Seq<u64>) -> bool {
    forall|i: int|
        0 <= i < a.len() && #[trigger] a[i].children_start != 0 ==> shared_by_two(a, paths, i)
}

// ------------------------------------------------------------------
// Lemmas on paths through the arena
// ------------------------------------------------------------------

/// Arenas that agree on which of their first `k` nodes are internal count
/// the same number of internal nodes there.
proof fn lemma_count_same(a: Seq<OctNode>, b: Seq<OctNode>, k: int)
    requires
        forall|j: int| 0 <= j < k ==> (a[j].children_start != 0) == (b[j].children_start != 0),
    ensures
        internal_count(a, k) == internal_count(b, k),
    decreases k,
{
    if k > 0 {
        lemma_count_same(a, b, k - 1);
    }
}

/// Turning one leaf among the first `k` nodes into an internal node adds
/// one to the count.
proof fn lemma_count_flip(a: Seq<OctNode>, b: Seq<OctNode>, ni: int, k: int)
    requires
        0 <= ni < k,
        a[ni].children_start == 0,
        b[ni].children_start != 0,
        forall|j: int| 0 <= j < k && j != ni ==> (a[j].children_start != 0) == (
        b[j].children_start != 0),
    ensures
        internal_count(b, k) == internal_count(a, k) + 1,
    decreases k,
{
    if k - 1 == ni {
        lemma_count_same(a, b, k - 1);
    } else {
        lemma_count_flip(a, b, ni, k - 1);
    }
}

/// Leaves after the first `k` nodes add nothing to the count.
proof fn lemma_count_leaves(a: Seq<OctNode>, k: int, m: int)
    requires
        0 <= k <= m,
        forall|j: int| k <= j < m ==> a[j].children_start == 0,
    ensures
        internal_count(a, m) == internal_count(a, k),
    decreases m - k,
{
    if m > k {
        lemma_count_leaves(a, k, m - 1);
    }
}

/// A walk ends at the same node in any arena that keeps the nodes it visits.
proof fn lemma_locate_frame(a: Seq<OctNode>, b: Seq<OctNode>, i: int, p: u64, d: int)
    requires
        closed(a),
        0 <= i < a.len(),
        b.len() >= a.len(),
        forall|j: int| 0 <= j < a.len() && passes(a, i, p, d, j) ==> b[j] == a[j],
    ensures
        locate(b, i, p, d) == locate(a, i, p, d),
    decreases 21 - d,
{
    assert(passes(a, i, p, d, i));
    if d < 21 && a[i].children_start != 0 {
        let c = child_on_path(a, i, p, d);
        lemma_low3(p >> ((3 * d) as u64));
        assert forall|j: int| 0 <= j < a.len() && passes(a, c, p, d + 1, j) implies b[j] == a[j] by {
            assert(passes(a, i, p, d, j));
        }
        lemma_locate_frame(a, b, c, p, d + 1);
    }
}

/// A walk still reaches `k` in any arena that keeps the internal nodes.
proof fn lemma_passes_keep(a: Seq<OctNode>, b: Seq<OctNode>, i: int, p: u64, d: int, k: int)
    requires
        closed(a),
        0 <= i < a.len(),
        b.len() >= a.len(),
        forall|j: int| 0 <= j < a.len() && a[j].children_start != 0 ==> b[j] == a[j],
        passes(a, i, p, d, k),
    ensures
        passes(b, i, p, d, k),
    decreases 21 - d,
{
    if i != k {
        assert(a[i].children_start != 0);
        assert(b[i] == a[i]);
        let c = child_on_path(a, i, p, d);
        lemma_low3(p >> ((3 * d) as u64));
        lemma_passes_keep(a, b, c, p, d + 1, k);
    }
}

/// Walking from `i` through `k`: `k` is a node of the arena at the depth
/// the walk reaches it, the walk ends where the walk from `k` ends, and
/// it goes on through `k`'s child on the path.
proof fn lemma_passes_chain(a: Seq<OctNode>, depth: Seq<int>, i: int, p: u64, k: int)
    requires
        tree_wf(a, depth),
        0 <= i < a.len(),
        passes(a, i, p, depth[i], k),
    ensures
        0 <= k < a.len(),
        i <= k,
        depth[i] <= depth[k],
        k != i ==> depth[i] < depth[k],
        locate(a, i, p, depth[i]) == locate(a, k, p, depth[k]),
        a[k].children_start != 0 ==> passes(
            a,
            i,
            p,
            depth[i],
            child_on_path(a, k, p, depth[k]),
        ),
    decreases 21 - depth[i],
{
    lemma_low3(p >> ((3 * depth[i]) as u64));
    if i == k {
        if a[k].children_start != 0 {
            let c = child_on_path(a, k, p, depth[k]);
            assert(passes(a, c, p, depth[k] + 1, c));
        }
    } else {
        let c = child_on_path(a, i, p, depth[i]);
        assert(depth[c] == depth[i] + 1);
        lemma_passes_chain(a, depth, c, p, k);
    }
}

/// The walk from `i` ends at a leaf at or after `i`, through which it passes.
proof fn lemma_locate_leaf(a: Seq<OctNode>, depth: Seq<int>, i: int, p: u64)
    requires
        tree_wf(a, depth),
        0 <= i < a.len(),
    ensures
        i <= locate(a, i, p, depth[i]) < a.len(),
        a[locate(a, i, p, depth[i])].children_start == 0,
        passes(a, i, p, depth[i], locate(a, i, p, depth[i])),
    decreases 21 - depth[i],
{
    lemma_low3(p >> ((3 * depth[i]) as u64));
    if a[i].children_start != 0 {
        let c = child_on_path(a, i, p, depth[i]);
        assert(depth[c] == depth[i] + 1);
        lemma_locate_leaf(a, depth, c, p);
    }
}


/// A node still holds a particle when it is unchanged and the log only grows.
proof fn lemma_holds_keep(
    a: Seq<OctNode>,
    d: Seq<int>,
    log: Seq<Placement>,
    a2: Seq<OctNode>,
    d2: Seq<int>,
    log2: Seq<Placement>,
    h: int,
    q: int,
)
    requires
        holds(a, d, log, h, q),
        h < a2.len(),
        a2[h] == a[h],
        d2[h] == d[h],
        log2.len() >= log.len(),
        forall|k: int| 0 <= k < log.len() ==> log2[k] == log[k],
    ensures
        holds(a2, d2, log2, h, q),
{
    if a[h].particle_index as int != q {
        let e = Placement { node: h as usize, particle: q as usize, merged: true };
        let k = choose|k: int| 0 <= k < log.len() && log[k] == e;
        assert(log2[k] == e);
    }
}

/// The log stays well formed when the arena and log grow and new entries are sound.
proof fn lemma_log_keep(
    a: Seq<OctNode>,
    d: Seq<int>,
    log: Seq<Placement>,
    a2: Seq<OctNode>,
    d2: Seq<int>,
    log2: Seq<Placement>,
    n: int,
)
    requires
        log_wf(a, d, log, n),
        d.len() == a.len(),
        a2.len() >= a.len(),
        forall|j: int| 0 <= j < d.len() ==> d2[j] == d[j],
        log2.len() >= log.len(),
        forall|k: int| 0 <= k < log.len() ==> log2[k] == log[k],
        forall|k: int|
            log.len() <= k < log2.len() ==> {
                let e = #[trigger] log2[k];
                &&& e.node < a2.len()
                &&& e.particle < n
                &&& e.merged ==> d2[e.node as int] == 21
                &&& !e.merged ==> d2[e.node as int] <= MAX_DEPTH
            },
    ensures
        log_wf(a2, d2, log2, n),
{
    assert forall|k: int| 0 <= k < log2.len() implies {
        let e = #[trigger] log2[k];
        &&& e.node < a2.len()
        &&& e.particle < n
        &&& e.merged ==> d2[e.node as int] == 21
        &&& !e.merged ==> d2[e.node as int] <= MAX_DEPTH
    } by {
        if k < log.len() {
            assert(log2[k] == log[k]);
        }
    }
}

/// A placed particle other than the one held by leaf `ni` does not walk
/// through `ni`.
proof fn lemma_avoids_leaf(
    a: Seq<OctNode>,
    d: Seq<int>,
    log: Seq<Placement>,
    paths: Seq<u64>,
    placed: Set<int>,
    ni: int,
    q: int,
)
    requires
        tree_wf(a, d),
        placed_ok(a, d, log, paths, placed),
        placed.contains(q),
        0 <= ni < a.len(),
        a[ni].children_start == 0,
        d[ni] <= MAX_DEPTH,
        a[ni].particle_index as int != q,
    ensures
        !passes(a, 0, paths[q], 0, ni),
        home(a, paths[q]) != ni,
        0 <= home(a, paths[q]) < a.len(),
{
    let p = paths[q];
    lemma_locate_leaf(a, d, 0, p);
    if passes(a, 0, p, 0, ni) {
        lemma_passes_chain(a, d, 0, p, ni);
        assert(locate(a, ni, p, d[ni]) == ni);
        assert(holds(a, d, log, home(a, p), q));
    }
}

/// Splitting leaf `ni` (at most at the split depth) into eight fresh
/// children at the end of the arena keeps the shape invariant.
proof fn lemma_split_shape(a0: Seq<OctNode>, d0: Seq<int>, a2: Seq<OctNode>, d2: Seq<int>, ni: int)
    requires
        tree_wf(a0, d0),
        0 <= ni < a0.len(),
        a0[ni].children_start == 0,
        d0[ni] <= MAX_DEPTH,
        a2.len() == a0.len() + 8,
        a2.len() <= usize::MAX,
        a2[ni] == (OctNode { particle_index: -1i32, children_start: a0.len() as usize, id: a0[ni].id }),
        forall|j: int| 0 <= j < a0.len() && j != ni ==> a2[j] == a0[j],
        forall|j: int|
            a0.len() <= j < a0.len() + 8 ==> a2[j] == (OctNode {
                particle_index: -1i32,
                children_start: 0,
                id: j as u32,
            }),
        d2 == d0 + Seq::new(8, |o: int| d0[ni] + 1),
    ensures
        tree_wf(a2, d2),
{
    lemma_count_flip(a0, a2, ni, a0.len() as int);
    lemma_count_leaves(a2, a0.len() as int, a2.len() as int);
    assert forall|j: int| 1 <= j < a2.len() implies #[trigger] has_parent(a2, j) by {
        if j < a0.len() {
            assert(has_parent(a0, j));
            let i = choose|i: int| 0 <= i < a0.len() && #[trigger] in_block(a0, i, j);
            assert(i != ni);
            assert(a2[i] == a0[i]);
            assert(in_block(a2, i, j));
        } else {
            assert(in_block(a2, ni, j));
        }
    }
    assert forall|i: int, j: int|
        0 <= i < a2.len() && 0 <= j < a2.len() && i != j
            && #[trigger] a2[i].children_start != 0
            && #[trigger] a2[j].children_start != 0 implies a2[i].children_start
        + 8 <= a2[j].children_start || a2[j].children_start + 8
        <= a2[i].children_start by {
        if i < a0.len() && i != ni {
            assert(a2[i] == a0[i]);
        }
        if j < a0.len() && j != ni {
            assert(a2[j] == a0[j]);
        }
        if i >= a0.len() {
            assert(a2[i].children_start == 0);
        }
        if j >= a0.len() {
            assert(a2[j].children_start == 0);
        }
    }
    assert forall|i: int|
        0 <= i < a2.len() && #[trigger] a2[i].children_start != 0 implies i
        < a2[i].children_start && a2[i].children_start + 8 <= a2.len() by {
        if i < a0.len() && i != ni {
            assert(a2[i] == a0[i]);
            assert(a0[i].children_start != 0);
        } else if i == ni {
            assert(a2[i].children_start == a0.len());
        } else {
            assert(a2[i].children_start == 0);
        }
    }
    assert forall|i: int|
        0 <= i < a2.len() && #[trigger] a2[i].children_start != 0 implies {
            &&& d2[i] < 21
            &&& a2[i].particle_index == -1
            &&& forall|o: int|
                0 <= o < 8 ==> #[trigger] d2[a2[i].children_start + o] == d2[i]
                    + 1
        } by {
        if i < a0.len() && i != ni {
            assert(a2[i] == a0[i]);
            assert forall|o: int| 0 <= o < 8 implies #[trigger] d2[a2[i].children_start
                + o] == d2[i] + 1 by {
                assert(d0[a0[i].children_start + o] == d0[i] + 1);
            }
        }
    }
}

/// The last internal node that a walk from `i` goes through before `h`:
/// `h` lies in its child block, one level below it.
proof fn lemma_parent(a: Seq<OctNode>, depth: Seq<int>, i: int, p: u64, h: int) -> (x: int)
    requires
        tree_wf(a, depth),
        0 <= i < a.len(),
        passes(a, i, p, depth[i], h),
        h != i,
    ensures
        0 <= x < a.len(),
        passes(a, i, p, depth[i], x),
        a[x].children_start != 0,
        a[x].children_start <= h < a[x].children_start + 8,
        depth[h] == depth[x] + 1,
    decreases 21 - depth[i],
{
    lemma_low3(p >> ((3 * depth[i]) as u64));
    let c = child_on_path(a, i, p, depth[i]);
    assert(depth[c] == depth[i] + 1);
    if c == h {
        i
    } else {
        let x = lemma_parent(a, depth, c, p, h);
        assert(passes(a, i, p, depth[i], x));
        x
    }
}

/// Two walks that start at nodes of the same depth and end at the same
/// node start at the same node.
proof fn lemma_meet(
    a: Seq<OctNode>,
    depth: Seq<int>,
    c: int,
    c2: int,
    p: u64,
    p2: u64,
    h: int,
)
    requires
        tree_wf(a, depth),
        0 <= c < a.len(),
        0 <= c2 < a.len(),
        depth[c] == depth[c2],
        passes(a, c, p, depth[c], h),
        passes(a, c2, p2, depth[c2], h),
    ensures
        c == c2,
    decreases depth[h] - depth[c],
{
    lemma_passes_chain(a, depth, c, p, h);
    lemma_passes_chain(a, depth, c2, p2, h);
    if h != c && h != c2 {
        let x = lemma_parent(a, depth, c, p, h);
        let x2 = lemma_parent(a, depth, c2, p2, h);
        if x != x2 {
            assert(a[x].children_start + 8 <= a[x2].children_start || a[x2].children_start + 8
                <= a[x].children_start);
        }
        lemma_passes_chain(a, depth, c, p, x);
        lemma_meet(a, depth, c, c2, p, p2, x);
    }
}

/// Two walks from `i` that end at the same node `h` take the same octant
/// at every depth on the way.
proof fn lemma_paths_agree(a: Seq<OctNode>, depth: Seq<int>, i: int, p: u64, p2: u64, h: int)
    requires
        tree_wf(a, depth),
        0 <= i < a.len(),
        passes(a, i, p, depth[i], h),
        passes(a, i, p2, depth[i], h),
    ensures
        forall|d: int| depth[i] <= d < depth[h] ==> octant_at(p, d) == octant_at(p2, d),
    decreases 21 - depth[i],
{
    lemma_passes_chain(a, depth, i, p, h);
    if i != h {
        lemma_low3(p >> ((3 * depth[i]) as u64));
        lemma_low3(p2 >> ((3 * depth[i]) as u64));
        let c = child_on_path(a, i, p, depth[i]);
        let c2 = child_on_path(a, i, p2, depth[i]);
        assert(depth[c] == depth[i] + 1);
        assert(depth[c2] == depth[i] + 1);
        lemma_meet(a, depth, c, c2, p, p2, h);
        lemma_paths_agree(a, depth, c, p, p2, h);
    }
}

/// Two different particles rest in the same node only below the split
/// depth, where both were merged into it, and only when their octant paths
/// agree at every depth down to it.
pub proof fn lemma_shared_home(
    a: Seq<OctNode>,
    depth: Seq<int>,
    log: Seq<Placement>,
    paths: Seq<u64>,
    placed: Set<int>,
    q: int,
    r: int,
)
    requires
        tree_wf(a, depth),
        placed_ok(a, depth, log, paths, placed),
        placed.contains(q),
        placed.contains(r),
        q != r,
        home(a, paths[q]) == home(a, paths[r]),
    ensures
        depth[home(a, paths[q])] == 21,
        log.contains(Placement { node: home(a, paths[q]) as usize, particle: q as usize, merged: true }),
        log.contains(Placement { node: home(a, paths[q]) as usize, particle: r as usize, merged: true }),
        forall|d: int| 0 <= d < 21 ==> octant_at(paths[q], d) == octant_at(paths[r], d),
{
    let h = home(a, paths[q]);
    assert(holds(a, depth, log, h, q));
    assert(holds(a, depth, log, h, r));
    lemma_locate_leaf(a, depth, 0, paths[q]);
    lemma_locate_leaf(a, depth, 0, paths[r]);
    lemma_paths_agree(a, depth, 0, paths[q], paths[r], h);
}

/// Internal nodes that do not change keep the particles that walk through
/// them.
proof fn lemma_shared_keep(a: Seq<OctNode>, b: Seq<OctNode>, paths: Seq<u64>, i: int)
    requires
        closed(a),
        a.len() > 0,
        b.len() >= a.len(),
        forall|j: int| 0 <= j < a.len() && a[j].children_start != 0 ==> b[j] == a[j],
        shared_by_two(a, paths, i),
    ensures
        shared_by_two(b, paths, i),
{
    let (q, r) = choose|q: int, r: int|
        0 <= q < paths.len() && 0 <= r < paths.len() && q != r && #[trigger] passes(
            a,
            0,
            paths[q],
            0,
            i,
        ) && #[trigger] passes(a, 0, paths[r], 0, i);
    lemma_passes_keep(a, b, 0, paths[q], 0, i);
    lemma_passes_keep(a, b, 0, paths[r], 0, i);
}

/// A node above the depth limit that two placed particles walk through is
/// split: together with `splits_needed`, the internal nodes are exactly the
/// nodes above the limit shared by two particles.
pub proof fn lemma_shared_node_split(
    a: Seq<OctNode>,
    depth: Seq<int>,
    log: Seq<Placement>,
    paths: Seq<u64>,
    placed: Set<int>,
    q: int,
    r: int,
    i: int,
)
    requires
        tree_wf(a, depth),
        placed_ok(a, depth, log, paths, placed),
        placed.contains(q),
        placed.contains(r),
        q != r,
        passes(a, 0, paths[q], 0, i),
        passes(a, 0, paths[r], 0, i),
        depth[i] <= MAX_DEPTH,
    ensures
        a[i].children_start != 0,
{
    lemma_passes_chain(a, depth, 0, paths[q], i);
    lemma_passes_chain(a, depth, 0, paths[r], i);
    if a[i].children_start == 0 {
        assert(home(a, paths[q]) == i);
        assert(home(a, paths[r]) == i);
        lemma_shared_home(a, depth, log, paths, placed, q, r);
    }
}

/// A built tree has one root and eight children per internal node: it has
/// `1 + 8 * (internal nodes)` nodes, and every other node lies in exactly
/// one child block.
pub proof fn lemma_tree_shape(a: Seq<OctNode>, depth: Seq<int>, j: int)
    requires
        tree_wf(a, depth),
        1 <= j < a.len(),
    ensures
        a.len() == 1 + 8 * internal_count(a, a.len() as int),
        exists|i: int| 0 <= i < a.len() && #[trigger] in_block(a, i, j),
        forall|i: int, k: int|
            0 <= i < a.len() && 0 <= k < a.len() && #[trigger] in_block(a, i, j)
                && #[trigger] in_block(a, k, j) ==> i == k,
{
    assert(has_parent(a, j));
}

/// Storing particle `pi` in the empty leaf `ni` on its path keeps the tree
/// invariants and places `pi`.
proof fn lemma_store_step(
    a0: Seq<OctNode>,
    d0: Seq<int>,
    l0: Seq<Placement>,
    a1: Seq<OctNode>,
    l1: Seq<Placement>,
    pp: Seq<u64>,
    placed: Set<int>,
    ni: int,
    pi: int,
)
    requires
        tree_wf(a0, d0),
        placed_ok(a0, d0, l0, pp, placed),
        log_wf(a0, d0, l0, pp.len() as int),
        splits_needed(a0, pp),
        log_exact(a0, l0, pp, placed),
        0 <= ni < a0.len(),
        a0.len() <= usize::MAX,
        a0[ni].children_start == 0,
        a0[ni].particle_index < 0,
        d0[ni] <= MAX_DEPTH,
        pp.len() <= i32::MAX,
        0 <= pi < pp.len(),
        !placed.contains(pi),
        passes(a0, 0, pp[pi], 0, ni),
        a1 == a0.update(ni, OctNode { particle_index: pi as i32, ..a0[ni] }),
        l1 == l0.push(Placement { node: ni as usize, particle: pi as usize, merged: false }),
    ensures
        tree_wf(a1, d0),
        placed_ok(a1, d0, l1, pp, placed.insert(pi)),
        log_wf(a1, d0, l1, pp.len() as int),
        splits_needed(a1, pp),
        log_exact(a1, l1, pp, placed.insert(pi)),
{
    let p = pp[pi];
    let n = pp.len() as int;
    assert forall|j: int| 1 <= j < a1.len() implies #[trigger] has_parent(a1, j) by {
        assert(has_parent(a0, j));
        let i = choose|i: int| 0 <= i < a0.len() && #[trigger] in_block(a0, i, j);
        assert(i != ni);
        assert(in_block(a1, i, j));
    }
    lemma_count_same(a0, a1, a0.len() as int);
    assert(tree_wf(a1, d0));
    assert forall|q: int| #[trigger] placed.contains(q) implies home(a1, pp[q]) == home(
        a0,
        pp[q],
    ) && home(a1, pp[q]) != ni by {
        lemma_avoids_leaf(a0, d0, l0, pp, placed, ni, q);
        lemma_locate_frame(a0, a1, 0, pp[q], 0);
    }
    lemma_passes_keep(a0, a1, 0, p, 0, ni);
    lemma_passes_chain(a1, d0, 0, p, ni);
    assert(home(a1, p) == ni);
    assert forall|q: int| #[trigger] placed.insert(pi).contains(q) implies 0 <= q
        < pp.len() && holds(a1, d0, l1, home(a1, pp[q]), q) by {
        if q != pi {
            lemma_avoids_leaf(a0, d0, l0, pp, placed, ni, q);
            lemma_holds_keep(a0, d0, l0, a1, d0, l1, home(a0, pp[q]), q);
        }
    }
    assert forall|j: int| 0 <= j < a1.len() && (#[trigger] a1[j]).particle_index
        >= 0 implies placed.insert(pi).contains(a1[j].particle_index as int)
        && home(a1, pp[a1[j].particle_index as int]) == j by {
        if j != ni {
            assert(a1[j] == a0[j]);
            assert(placed.contains(a0[j].particle_index as int));
        }
    }
    lemma_log_keep(a0, d0, l0, a1, d0, l1, n);
    assert forall|i: int|
        0 <= i < a1.len() && #[trigger] a1[i].children_start != 0 implies shared_by_two(
        a1,
        pp,
        i,
    ) by {
        assert(a0[i].children_start != 0);
        lemma_shared_keep(a0, a1, pp, i);
    }
    // The log: no entry names the empty leaf `ni` yet, and the new entry
    // is the only one naming it.
    let e = Placement { node: ni as usize, particle: pi as usize, merged: false };
    assert(l1[l0.len() as int] == e);
    assert forall|k: int| 0 <= k < l0.len() implies (#[trigger] l0[k]).node != ni by {
        if l0[k].node == ni {
            let q = l0[k].particle as int;
            assert(placed.contains(q) && home(a0, pp[q]) == ni);
            assert(home(a1, pp[q]) == home(a0, pp[q]) && home(a1, pp[q]) != ni);
        }
    }
    assert forall|k: int|
        0 <= k < l1.len() && a1[(#[trigger] l1[k]).node as int].children_start == 0 implies placed.insert(
        pi,
    ).contains(l1[k].particle as int) && home(a1, pp[l1[k].particle as int]) == l1[k].node as int by {
        if k < l0.len() {
            assert(l1[k] == l0[k]);
            let q = l0[k].particle as int;
            assert(a1[l0[k].node as int] == a0[l0[k].node as int]);
            assert(placed.contains(q) && home(a0, pp[q]) == l0[k].node as int);
            assert(home(a1, pp[q]) == home(a0, pp[q]));
        }
    }
    assert forall|k: int, m: int|
        0 <= k < m < l1.len() && (#[trigger] l1[k]).node == (#[trigger] l1[m]).node
            && a1[l1[k].node as int].children_start == 0 implies l1[k].particle
        < l1[m].particle by {
        assert(l1[k] == l0[k]);
        if m < l0.len() {
            assert(l1[m] == l0[m]);
            assert(a1[l0[k].node as int] == a0[l0[k].node as int]);
        }
    }
    assert forall|j: int| 0 <= j < a1.len() && (#[trigger] a1[j]).particle_index >= 0 implies l1.contains(
        Placement { node: j as usize, particle: a1[j].particle_index as usize, merged: false },
    ) by {
        if j != ni {
            assert(a1[j] == a0[j]);
            let e2 = Placement { node: j as usize, particle: a0[j].particle_index as usize, merged: false };
            assert(l0.contains(e2));
            let w = choose|w: int| 0 <= w < l0.len() && l0[w] == e2;
            assert(l1[w] == e2);
        }
    }
}

/// Splitting the occupied leaf `ni` that particle `pi` reaches keeps the
/// tree invariants with the displaced particle taken out, and both
/// particles walk on into the new children.
proof fn lemma_split_step(
    a0: Seq<OctNode>,
    d0: Seq<int>,
    l0: Seq<Placement>,
    a2: Seq<OctNode>,
    d2: Seq<int>,
    pp: Seq<u64>,
    placed: Set<int>,
    ni: int,
    pi: int,
)
    requires
        tree_wf(a0, d0),
        placed_ok(a0, d0, l0, pp, placed),
        log_wf(a0, d0, l0, pp.len() as int),
        splits_needed(a0, pp),
        log_exact(a0, l0, pp, placed),
        earlier_on_walk(a0, l0, pp[pi], ni, d0[ni], pi),
        0 <= ni < a0.len(),
        a0[ni].children_start == 0,
        a0[ni].particle_index >= 0,
        d0[ni] <= MAX_DEPTH,
        0 <= pi < pp.len(),
        !placed.contains(pi),
        passes(a0, 0, pp[pi], 0, ni),
        a2.len() == a0.len() + 8,
        a2.len() <= usize::MAX,
        a2[ni] == (OctNode { particle_index: -1i32, children_start: a0.len() as usize, id: a0[ni].id }),
        forall|j: int| 0 <= j < a0.len() && j != ni ==> a2[j] == a0[j],
        forall|j: int|
            a0.len() <= j < a0.len() + 8 ==> a2[j] == (OctNode {
                particle_index: -1i32,
                children_start: 0,
                id: j as u32,
            }),
        d2 == d0 + Seq::new(8, |o: int| d0[ni] + 1),
    ensures
        ({
            let old_pi = a0[ni].particle_index as int;
            &&& placed.contains(old_pi)
            &&& old_pi != pi
            &&& tree_wf(a2, d2)
            &&& placed_ok(a2, d2, l0, pp, placed.remove(old_pi))
            &&& log_wf(a2, d2, l0, pp.len() as int)
            &&& splits_needed(a2, pp)
            &&& passes(a2, 0, pp[old_pi], 0, child_on_path(a2, ni, pp[old_pi], d0[ni]))
            &&& passes(a2, 0, pp[pi], 0, child_on_path(a2, ni, pp[pi], d0[ni]))
            &&& old_pi < pi
            &&& passes(a2, 0, pp[old_pi], 0, ni)
            &&& log_exact(a2, l0, pp, placed.remove(old_pi))
            &&& earlier_on_walk(
                a2,
                l0,
                pp[old_pi],
                child_on_path(a2, ni, pp[old_pi], d0[ni]),
                d0[ni] + 1,
                old_pi,
            )
        }),
{
    let old_pi = a0[ni].particle_index as int;
    let p = pp[pi];
    let op = pp[old_pi];
    let rest = placed.remove(old_pi);
    let n = pp.len() as int;
    assert(placed.contains(old_pi));
    assert(home(a0, op) == ni);
    lemma_split_shape(a0, d0, a2, d2, ni);
    lemma_locate_leaf(a0, d0, 0, op);
    lemma_passes_keep(a0, a2, 0, op, 0, ni);
    lemma_passes_chain(a2, d2, 0, op, ni);
    assert forall|q: int| #[trigger] rest.contains(q) implies home(a2, pp[q]) == home(
        a0,
        pp[q],
    ) && home(a2, pp[q]) != ni && 0 <= home(a0, pp[q]) < a0.len() by {
        lemma_avoids_leaf(a0, d0, l0, pp, placed, ni, q);
        lemma_locate_frame(a0, a2, 0, pp[q], 0);
    }
    assert forall|q: int| #[trigger] rest.contains(q) implies 0 <= q < pp.len() && holds(
        a2,
        d2,
        l0,
        home(a2, pp[q]),
        q,
    ) by {
        lemma_holds_keep(a0, d0, l0, a2, d2, l0, home(a0, pp[q]), q);
    }
    assert forall|j: int| 0 <= j < a2.len() && (#[trigger] a2[j]).particle_index
        >= 0 implies rest.contains(a2[j].particle_index as int) && home(
        a2,
        pp[a2[j].particle_index as int],
    ) == j by {
        assert(j < a0.len() && j != ni);
        assert(a2[j] == a0[j]);
        let r = a0[j].particle_index as int;
        assert(placed.contains(r));
        assert(r != old_pi);
    }
    lemma_log_keep(a0, d0, l0, a2, d2, l0, n);
    lemma_passes_keep(a0, a2, 0, p, 0, ni);
    assert(passes(a2, 0, pp[old_pi], 0, ni));
    assert(passes(a2, 0, pp[pi], 0, ni));
    assert(shared_by_two(a2, pp, ni));
    assert forall|i: int|
        0 <= i < a2.len() && #[trigger] a2[i].children_start != 0 implies shared_by_two(
        a2,
        pp,
        i,
    ) by {
        if i != ni {
            assert(i < a0.len());
            assert(a2[i] == a0[i]);
            lemma_shared_keep(a0, a2, pp, i);
        }
    }
    lemma_passes_chain(a2, d2, 0, p, ni);
    // The displaced particle was stored at `ni` before `pi` came.
    let e = Placement { node: ni as usize, particle: old_pi as usize, merged: false };
    assert(l0.contains(e));
    let w = choose|w: int| 0 <= w < l0.len() && l0[w] == e;
    assert(passes(a0, ni, p, d0[ni], ni));
    assert(l0[w].particle < pi);
    assert forall|k: int|
        0 <= k < l0.len() && a2[(#[trigger] l0[k]).node as int].children_start == 0 implies rest.contains(
        l0[k].particle as int,
    ) && home(a2, pp[l0[k].particle as int]) == l0[k].node as int by {
        let x = l0[k].node as int;
        assert(x < a0.len() && x != ni);
        assert(a2[x] == a0[x]);
        let q = l0[k].particle as int;
        assert(placed.contains(q) && home(a0, pp[q]) == x);
        assert(q != old_pi);
        assert(rest.contains(q));
    }
    assert forall|k: int, m: int|
        0 <= k < m < l0.len() && (#[trigger] l0[k]).node == (#[trigger] l0[m]).node
            && a2[l0[k].node as int].children_start == 0 implies l0[k].particle
        < l0[m].particle by {
        let x = l0[k].node as int;
        assert(x < a0.len() && x != ni);
        assert(a2[x] == a0[x]);
    }
    assert forall|j: int| 0 <= j < a2.len() && (#[trigger] a2[j]).particle_index >= 0 implies l0.contains(
        Placement { node: j as usize, particle: a2[j].particle_index as usize, merged: false },
    ) by {
        assert(j < a0.len() && j != ni);
        assert(a2[j] == a0[j]);
    }
    let c_old = child_on_path(a2, ni, op, d0[ni]);
    lemma_low3(op >> ((3 * d0[ni]) as u64));
    assert(d2[c_old] == d0[ni] + 1);
    assert forall|k: int|
        0 <= k < l0.len() && a2[(#[trigger] l0[k]).node as int].children_start == 0 && passes(
            a2,
            c_old,
            op,
            d0[ni] + 1,
            l0[k].node as int,
        ) implies l0[k].particle < old_pi by {
        lemma_passes_chain(a2, d2, c_old, op, l0[k].node as int);
    }
}

/// Merging particle `pi` into the depth-limit node `ni` where its walk
/// ends keeps the log exact.
proof fn lemma_merge_log(
    a0: Seq<OctNode>,
    l0: Seq<Placement>,
    l1: Seq<Placement>,
    pp: Seq<u64>,
    placed: Set<int>,
    ni: int,
    pi: int,
    d: int,
)
    requires
        log_exact(a0, l0, pp, placed),
        earlier_on_walk(a0, l0, pp[pi], ni, d, pi),
        0 <= ni < a0.len(),
        a0.len() <= usize::MAX,
        a0[ni].children_start == 0,
        home(a0, pp[pi]) == ni,
        0 <= pi < pp.len(),
        pp.len() <= usize::MAX,
        l1 == l0.push(Placement { node: ni as usize, particle: pi as usize, merged: true }),
    ensures
        log_exact(a0, l1, pp, placed.insert(pi)),
{
    let e = Placement { node: ni as usize, particle: pi as usize, merged: true };
    assert(l1[l0.len() as int] == e);
    assert forall|k: int|
        0 <= k < l1.len() && a0[(#[trigger] l1[k]).node as int].children_start == 0 implies placed.insert(
        pi,
    ).contains(l1[k].particle as int) && home(a0, pp[l1[k].particle as int]) == l1[k].node as int by {
        if k < l0.len() {
            assert(l1[k] == l0[k]);
        }
    }
    assert forall|k: int, m: int|
        0 <= k < m < l1.len() && (#[trigger] l1[k]).node == (#[trigger] l1[m]).node
            && a0[l1[k].node as int].children_start == 0 implies l1[k].particle
        < l1[m].particle by {
        assert(l1[k] == l0[k]);
        if m < l0.len() {
            assert(l1[m] == l0[m]);
        } else {
            assert(passes(a0, ni, pp[pi], d, ni));
        }
    }
    assert forall|j: int| 0 <= j < a0.len() && (#[trigger] a0[j]).particle_index >= 0 implies l1.contains(
        Placement { node: j as usize, particle: a0[j].particle_index as usize, merged: false },
    ) by {
        let e2 = Placement { node: j as usize, particle: a0[j].particle_index as usize, merged: false };
        assert(l0.contains(e2));
        let w = choose|w: int| 0 <= w < l0.len() && l0[w] == e2;
        assert(l1[w] == e2);
    }
}

/// After the displaced particle has gone down into the fresh children,
/// every log entry on the walk of `pi` from its child names a smaller
/// particle: older entries name older nodes, newer ones the displaced
/// particle.
proof fn lemma_second_walk(
    a3: Seq<OctNode>,
    d3: Seq<int>,
    l0: Seq<Placement>,
    l3: Seq<Placement>,
    p: u64,
    c: int,
    len0: int,
    old_pi: int,
    pi: int,
)
    requires
        tree_wf(a3, d3),
        0 <= c < a3.len(),
        len0 <= c,
        l3.len() >= l0.len(),
        forall|k: int| 0 <= k < l0.len() ==> l3[k] == l0[k] && (#[trigger] l0[k]).node < len0,
        forall|k: int| l0.len() <= k < l3.len() ==> (#[trigger] l3[k]).particle <= old_pi,
        old_pi < pi,
    ensures
        earlier_on_walk(a3, l3, p, c, d3[c], pi),
{
    assert forall|k: int|
        0 <= k < l3.len() && a3[(#[trigger] l3[k]).node as int].children_start == 0 && passes(
            a3,
            c,
            p,
            d3[c],
            l3[k].node as int,
        ) implies l3[k].particle < pi by {
        if k < l0.len() {
            assert(l3[k] == l0[k]);
            lemma_passes_chain(a3, d3, c, p, l3[k].node as int);
        }
    }
}

/// The walk from a child on the path is part of the walk from its parent.
proof fn lemma_walk_child(a: Seq<OctNode>, log: Seq<Placement>, p: u64, i: int, d: int, pi: int)
    requires
        earlier_on_walk(a, log, p, i, d, pi),
        a[i].children_start != 0,
        d < 21,
    ensures
        earlier_on_walk(a, log, p, child_on_path(a, i, p, d), d + 1, pi),
{
    assert forall|k: int|
        0 <= k < log.len() && a[(#[trigger] log[k]).node as int].children_start == 0 && passes(
            a,
            child_on_path(a, i, p, d),
            p,
            d + 1,
            log[k].node as int,
        ) implies log[k].particle < pi by {
        assert(passes(a, i, p, d, log[k].node as int));
    }
}

/// Growing is transitive.
proof fn lemma_grows_trans(a: Seq<OctNode>, b: Seq<OctNode>, c: Seq<OctNode>)
    requires
        grows(a, b),
        grows(b, c),
    ensures
        grows(a, c),
{
    assert forall|j: int| 0 <= j < a.len() implies (#[trigger] c[j]).children_start
        == a[j].children_start || (a[j].children_start == 0 && c[j].children_start >= a.len()) by {
        assert(b[j].children_start == a[j].children_start || (a[j].children_start == 0
            && b[j].children_start >= a.len()));
        assert(c[j].children_start == b[j].children_start || (b[j].children_start == 0
            && c[j].children_start >= b.len()));
    }
}

/// From a node added after `len`, a walk only reaches nodes added after `len`.
proof fn lemma_passes_fresh(b: Seq<OctNode>, len: int, i: int, p: u64, d: int, k: int)
    requires
        closed(b),
        0 <= len <= i < b.len(),
        passes(b, i, p, d, k),
    ensures
        k >= len,
    decreases 21 - d,
{
    if i != k {
        lemma_low3(p >> ((3 * d) as u64));
        assert(b[i].children_start != 0);
        assert(i < b[i].children_start);
        assert(b[i].children_start + 8 <= b.len());
        assert(0 <= octant_at(p, d) < 8);
        lemma_passes_fresh(b, len, child_on_path(b, i, p, d), p, d + 1, k);
    }
}

/// A walk in a grown arena between two old nodes is a walk of the old
/// arena.
proof fn lemma_passes_back(a: Seq<OctNode>, b: Seq<OctNode>, i: int, p: u64, d: int, k: int)
    requires
        grows(a, b),
        closed(b),
        0 <= i < a.len(),
        0 <= k < a.len(),
        passes(b, i, p, d, k),
    ensures
        passes(a, i, p, d, k),
    decreases 21 - d,
{
    if i != k {
        lemma_low3(p >> ((3 * d) as u64));
        let c = child_on_path(b, i, p, d);
        assert(b[i].children_start == a[i].children_start || (a[i].children_start == 0
            && b[i].children_start >= a.len()));
        if c >= a.len() {
            lemma_passes_fresh(b, a.len() as int, c, p, d + 1, k);
        } else {
            lemma_passes_back(a, b, c, p, d + 1, k);
        }
    }
}

/// Storing or merging at a leaf, which changes no children and only logs
/// an entry naming that leaf, keeps the internal entries exact.
proof fn lemma_internal_at_leaf(
    a0: Seq<OctNode>,
    l0: Seq<Placement>,
    a1: Seq<OctNode>,
    l1: Seq<Placement>,
    pp: Seq<u64>,
    ni: int,
    e: Placement,
)
    requires
        internal_entries_exact(a0, l0, pp),
        closed(a0),
        a0.len() > 0,
        0 <= ni < a0.len(),
        a0[ni].children_start == 0,
        e.node as int == ni,
        a1.len() == a0.len(),
        a1[ni].children_start == 0,
        forall|j: int| 0 <= j < a0.len() && j != ni ==> a1[j] == a0[j],
        l1 == l0.push(e),
        forall|k: int| 0 <= k < l0.len() ==> (#[trigger] l0[k]).node < a0.len(),
    ensures
        grows(a0, a1),
        internal_entries_exact(a1, l1, pp),
{
    assert(closed(a1)) by {
        assert forall|i: int| 0 <= i < a1.len() && #[trigger] a1[i].children_start != 0 implies i
            < a1[i].children_start && a1[i].children_start + 8 <= a1.len() by {
            assert(a1[i] == a0[i]);
        }
    }
    assert forall|j: int| 0 <= j < a0.len() && a0[j].children_start != 0 implies a1[j] == a0[j] by {}
    assert forall|j: int| 0 <= j < a1.len() && a1[j].children_start != 0 implies a0[j] == a1[j] by {}
    assert forall|j: int|
        0 <= j < a1.len() && #[trigger] a1[j].children_start != 0 implies exists|k: int|
        #[trigger] names(l1, k, j) by {
        assert(a0[j].children_start != 0);
        let k = choose|k: int| #[trigger] names(l0, k, j);
        assert(names(l1, k, j));
    }
    assert forall|k: int, m: int|
        #[trigger] names(l1, k, l1[m].node as int) && #[trigger] names(l1, m, l1[k].node as int)
            && a1[l1[k].node as int].children_start != 0 implies k == m by {
        if k == l0.len() || m == l0.len() {
            assert(l1[k].node as int == ni);
        }
        assert(k < l0.len() && m < l0.len());
        assert(l1[k] == l0[k] && l1[m] == l0[m]);
        assert(l0[k].node as int != ni);
        assert(names(l0, k, l0[m].node as int) && names(l0, m, l0[k].node as int));
    }
    assert forall|k: int|
        0 <= k < l1.len() && a1[(#[trigger] l1[k]).node as int].children_start != 0 implies {
        &&& !l1[k].merged
        &&& passes(a1, 0, pp[l1[k].particle as int], 0, l1[k].node as int)
        &&& forall|q: int|
            0 <= q < pp.len() && #[trigger] passes(a1, 0, pp[q], 0, l1[k].node as int)
                ==> l1[k].particle <= q
    } by {
        if k == l0.len() {
            assert(l1[k].node as int == ni);
        }
        assert(k < l0.len());
        assert(l1[k] == l0[k]);
        let x = l0[k].node as int;
        assert(x < a0.len() && x != ni);
        assert(a0[x].children_start != 0);
        lemma_passes_keep(a0, a1, 0, pp[l0[k].particle as int], 0, x);
        assert forall|q: int| 0 <= q < pp.len() && #[trigger] passes(a1, 0, pp[q], 0, x) implies l0[k].particle
            <= q by {
            lemma_passes_keep(a1, a0, 0, pp[q], 0, x);
        }
    }
}

/// Splitting the leaf `ni` keeps the internal entries exact: its one
/// stored entry, of the particle it held, becomes the entry of a new
/// internal node, and that particle is the smallest one through it.
proof fn lemma_internal_split(
    a0: Seq<OctNode>,
    d0: Seq<int>,
    l0: Seq<Placement>,
    a2: Seq<OctNode>,
    d2: Seq<int>,
    pp: Seq<u64>,
    placed: Set<int>,
    ni: int,
    pi: int,
)
    requires
        tree_wf(a0, d0),
        tree_wf(a2, d2),
        placed_ok(a0, d0, l0, pp, placed),
        log_exact(a0, l0, pp, placed),
        log_wf(a0, d0, l0, pp.len() as int),
        internal_entries_exact(a0, l0, pp),
        forall|q: int| 0 <= q < pi ==> #[trigger] placed.contains(q),
        0 <= ni < a0.len(),
        a0[ni].children_start == 0,
        a0[ni].particle_index >= 0,
        a0[ni].particle_index < pi,
        d0[ni] <= MAX_DEPTH,
        a2.len() == a0.len() + 8,
        a2[ni].children_start == a0.len(),
        forall|j: int| 0 <= j < a0.len() && j != ni ==> a2[j] == a0[j],
        forall|j: int| a0.len() <= j < a2.len() ==> (#[trigger] a2[j]).children_start == 0,
        passes(a2, 0, pp[a0[ni].particle_index as int], 0, ni),
    ensures
        grows(a0, a2),
        internal_entries_exact(a2, l0, pp),
{
    let old_pi = a0[ni].particle_index as int;
    assert(grows(a0, a2));
    // Every entry naming `ni` is the stored entry of the particle it held.
    assert forall|k: int| #[trigger] names(l0, k, ni) implies l0[k].particle as int == old_pi
        && !l0[k].merged by {
        let q = l0[k].particle as int;
        assert(placed.contains(q) && home(a0, pp[q]) == ni);
        assert(holds(a0, d0, l0, ni, q));
    }
    assert forall|j: int|
        0 <= j < a2.len() && #[trigger] a2[j].children_start != 0 implies exists|k: int|
        #[trigger] names(l0, k, j) by {
        if j == ni {
            let e = Placement { node: ni as usize, particle: old_pi as usize, merged: false };
            assert(l0.contains(e));
            let w = choose|w: int| 0 <= w < l0.len() && l0[w] == e;
            assert(names(l0, w, ni));
        } else {
            assert(j < a0.len());
            assert(a2[j] == a0[j]);
        }
    }
    assert forall|k: int, m: int|
        #[trigger] names(l0, k, l0[m].node as int) && #[trigger] names(l0, m, l0[k].node as int)
            && a2[l0[k].node as int].children_start != 0 implies k == m by {
        let x = l0[k].node as int;
        if x == ni {
            assert(names(l0, k, ni) && names(l0, m, ni));
            if k < m {
                assert(l0[k].particle < l0[m].particle);
            } else if m < k {
                assert(l0[m].particle < l0[k].particle);
            }
        } else {
            assert(x < a0.len());
            assert(a2[x] == a0[x]);
        }
    }
    assert forall|k: int|
        0 <= k < l0.len() && a2[(#[trigger] l0[k]).node as int].children_start != 0 implies {
        &&& !l0[k].merged
        &&& passes(a2, 0, pp[l0[k].particle as int], 0, l0[k].node as int)
        &&& forall|q: int|
            0 <= q < pp.len() && #[trigger] passes(a2, 0, pp[q], 0, l0[k].node as int)
                ==> l0[k].particle <= q
    } by {
        let x = l0[k].node as int;
        assert(x < a0.len());
        if x == ni {
            assert(names(l0, k, ni));
            assert forall|q: int| 0 <= q < pp.len() && #[trigger] passes(a2, 0, pp[q], 0, ni) implies l0[k].particle
                <= q by {
                lemma_passes_back(a0, a2, 0, pp[q], 0, ni);
                lemma_passes_chain(a0, d0, 0, pp[q], ni);
                assert(home(a0, pp[q]) == ni);
                if placed.contains(q) {
                    assert(holds(a0, d0, l0, ni, q));
                } else {
                    assert(!(q < pi));
                }
            }
        } else {
            assert(a2[x] == a0[x]);
            assert(a0[x].children_start != 0);
            lemma_passes_keep(a0, a2, 0, pp[l0[k].particle as int], 0, x);
            assert forall|q: int| 0 <= q < pp.len() && #[trigger] passes(a2, 0, pp[q], 0, x) implies l0[k].particle
                <= q by {
                lemma_passes_back(a0, a2, 0, pp[q], 0, x);
            }
        }
    }
}

/// The id counter, kept equal to the arena length as a `u32`, steps with it.
proof fn lemma_id_step(l: usize, n: u32)
    by (bit_vector)
    requires
        n == l as u32,
    ensures
        (if n + 1 > 0xffff_ffffu32 {
            (n + 1 - 0x1_0000_0000) as u32
        } else {
            (n + 1) as u32
        }) == (l + 1) as u32,
{
}

// ------------------------------------------------------------------
// The tree
// ------------------------------------------------------------------

/// The octree arena with its placement log.
pub struct Octree {
    arena: Vec<OctNode>,
    next_node_id: u32,
    placements: Vec<Placement>,
    depths: Ghost<Seq<int>>,
}

impl Octree {
    /// The nodes, in arena order.
    pub closed spec fn nodes(&self) -> Seq<OctNode> {
        self.arena@
    }

    /// The depth of each node (the root is at depth 0).
    pub closed spec fn depths(&self) -> Seq<int> {
        self.depths@
    }

    /// Every placement made since the last build, in order.
    pub closed spec fn log(&self) -> Seq<Placement> {
        self.placements@
    }

    /// An empty arena (before the first build), or a well-formed tree.
    pub closed spec fn wf(&self) -> bool {
        &&& self.next_node_id == self.arena@.len() as u32
        &&& self.depths@.len() == self.arena@.len()
        &&& (self.arena@.len() > 0 ==> tree_wf(self.arena@, self.depths@))
        &&& (self.arena@.len() == 0 ==> self.placements@.len() == 0)
    }

    /// An empty arena has an empty log.
    pub proof fn lemma_empty_log(self)
        requires
            self.wf(),
            self.nodes().len() == 0,
        ensures
            self.log().len() == 0,
    {
    }

    /// An empty arena.
    pub fn new() -> (t: Octree)
        ensures
            t.wf(),
            t.nodes().len() == 0,
            t.log().len() == 0,
    {
        Octree {
            arena: Vec::new(),
            next_node_id: 0,
            placements: Vec::new(),
            depths: Ghost(Seq::empty()),
        }
    }

    /// Number of nodes in the arena.
    pub fn node_count(&self) -> (r: usize)
        ensures
            r == self.nodes().len(),
    {
        self.arena.len()
    }

    /// Node `i` of the arena.
    pub fn node(&self, i: usize) -> (r: OctNode)
        requires
            i < self.nodes().len(),
        ensures
            r == self.nodes()[i as int],
    {
        self.arena[i]
    }

    /// The placement log, in order.
    pub fn placements(&self) -> (r: &Vec<Placement>)
        ensures
            r@ == self.log(),
    {
        &self.placements
    }

    /// Rebuilds the tree for particles `0 .. paths.len()`, particle `i`
    /// having octant path `paths[i]`: the arena and the log are cleared, a
    /// root is allocated and the particles are inserted in order.  With no
    /// particles the tree is left as it was.
    ///
    /// Afterwards every particle rests where its path ends, nodes are split
    /// exactly where needed, at most 168 nodes come with each particle after
    /// the first, and the entries of the log that name a leaf are exactly the
    /// particles resting there, each once, in insertion order; each internal
    /// node is named once, by the stored entry of the smallest particle whose
    /// walk goes through it (the one that rested there before the split).
    /// The arena and log are `built(paths, n)`: a function of the paths alone.
    pub fn build(&mut self, paths: &Vec<u64>)
        requires
            old(self).wf(),
            paths@.len() <= i32::MAX,
        ensures
            final(self).wf(),
            paths@.len() == 0 ==> final(self).nodes() == old(self).nodes() && final(self).log()
                == old(self).log(),
            paths@.len() > 0 ==> {
                &&& tree_wf(final(self).nodes(), final(self).depths())
                &&& final(self).nodes()[0].id == 0
                &&& placed_ok(
                    final(self).nodes(),
                    final(self).depths(),
                    final(self).log(),
                    paths@,
                    Set::new(|q: int| 0 <= q < paths@.len()),
                )
                &&& log_wf(
                    final(self).nodes(),
                    final(self).depths(),
                    final(self).log(),
                    paths@.len() as int,
                )
                &&& splits_needed(final(self).nodes(), paths@)
                &&& log_exact(
                    final(self).nodes(),
                    final(self).log(),
                    paths@,
                    Set::new(|q: int| 0 <= q < paths@.len()),
                )
                &&& final(self).nodes().len() <= 1 + 168 * (paths@.len() - 1)
                &&& (final(self).nodes(), final(self).log()) == built(paths@, paths@.len())
                &&& internal_entries_exact(final(self).nodes(), final(self).log(), paths@)
            },
    {
        let n = paths.len();
        if n == 0 {
            return;
        }
        self.arena.clear();
        self.next_node_id = 0;
        self.placements.clear();
        self.depths = Ghost(Seq::empty().push(0int));
        let rid = self.alloc_id();
        self.arena.push(OctNode::new(rid));
        assert(self.arena@[0].children_start == 0);
        assert(self.arena@ =~= built(paths@, 0).0);
        assert(internal_count(self.arena@, 0) == 0);
        assert(internal_count(self.arena@, 1) == 0);
        let mut i: usize = 0;
        while i < n
            invariant
                n == paths@.len(),
                n <= i32::MAX,
                0 <= i <= n,
                tree_wf(self.arena@, self.depths@),
                self.arena@[0].id == 0,
                self.next_node_id == self.arena@.len() as u32,
                placed_ok(
                    self.arena@,
                    self.depths@,
                    self.placements@,
                    paths@,
                    Set::new(|q: int| 0 <= q < i),
                ),
                log_wf(self.arena@, self.depths@, self.placements@, n as int),
                splits_needed(self.arena@, paths@),
                log_exact(self.arena@, self.placements@, paths@, Set::new(|q: int| 0 <= q < i)),
                i == 0 ==> self.arena@.len() == 1,
                (self.arena@, self.placements@) == built(paths@, i as nat),
                internal_entries_exact(self.arena@, self.placements@, paths@),
                i > 0 ==> self.arena@.len() <= 1 + 168 * (i - 1),
            decreases n - i,
        {
            let ghost placed = Set::new(|q: int| 0 <= q < i);
            proof {
                assert(passes(self.arena@, 0, paths@[i as int], 0, 0));
                let (a, l) = (self.arena@, self.placements@);
                assert forall|k: int|
                    0 <= k < l.len() && a[(#[trigger] l[k]).node as int].children_start == 0
                        && passes(a, 0, paths@[i as int], 0, l[k].node as int) implies l[k].particle
                    < i by {
                    assert(placed.contains(l[k].particle as int));
                }
                assert forall|q: int| 0 <= q < i implies #[trigger] placed.contains(q) by {}
            }
            self.insert(0, paths, i, 0, Ghost(placed));
            proof {
                assert(placed.insert(i as int) =~= Set::new(|q: int| 0 <= q < i + 1));
            }
            i = i + 1;
        }
    }

    fn alloc_id(&mut self) -> (id: u32)
        ensures
            id == old(self).next_node_id,
            final(self).next_node_id == old(self).next_node_id.wrapping_add(1),
            final(self).arena == old(self).arena,
            final(self).placements == old(self).placements,
            final(self).depths == old(self).depths,
    {
        let id = self.next_node_id;
        self.next_node_id = self.next_node_id.wrapping_add(1);
        id
    }

    /// Places particle `pi`, whose octant path is `paths[pi]`, below node
    /// `ni`, which lies on that path at `depth`.  An empty leaf takes the
    /// particle; an occupied leaf is split and both particles go down; an
    /// internal node passes it to the child on the path; below the depth
    /// limit the particle is merged into the node.
    #[verifier::spinoff_prover]
    fn insert(
        &mut self,
        ni: usize,
        paths: &Vec<u64>,
        pi: usize,
        depth: u32,
        Ghost(placed): Ghost<Set<int>>,
    )
        requires
            tree_wf(old(self).arena@, old(self).depths@),
            old(self).next_node_id == old(self).arena@.len() as u32,
            ni < old(self).arena@.len(),
            old(self).depths@[ni as int] == depth as int,
            paths@.len() <= i32::MAX,
            pi < paths@.len(),
            !placed.contains(pi as int),
            passes(old(self).arena@, 0, paths@[pi as int], 0, ni as int),
            placed_ok(old(self).arena@, old(self).depths@, old(self).placements@, paths@, placed),
            log_wf(old(self).arena@, old(self).depths@, old(self).placements@, paths@.len() as int),
            splits_needed(old(self).arena@, paths@),
            log_exact(old(self).arena@, old(self).placements@, paths@, placed),
            earlier_on_walk(
                old(self).arena@,
                old(self).placements@,
                paths@[pi as int],
                ni as int,
                depth as int,
                pi as int,
            ),
            internal_entries_exact(old(self).arena@, old(self).placements@, paths@),
            forall|q: int| 0 <= q < pi ==> #[trigger] placed.contains(q),
        ensures
            tree_wf(final(self).arena@, final(self).depths@),
            internal_entries_exact(final(self).arena@, final(self).placements@, paths@),
            grows(old(self).arena@, final(self).arena@),
            splits_needed(final(self).arena@, paths@),
            log_exact(final(self).arena@, final(self).placements@, paths@, placed.insert(pi as int)),
            (final(self).arena@, final(self).placements@) == inserted(
                old(self).arena@,
                old(self).placements@,
                paths@,
                ni as int,
                pi as int,
                depth as int,
            ),
            forall|k: int|
                old(self).placements@.len() <= k < final(self).placements@.len()
                    ==> (#[trigger] final(self).placements@[k]).particle <= pi,
            final(self).next_node_id == final(self).arena@.len() as u32,
            final(self).arena@.len() >= old(self).arena@.len(),
            final(self).arena@.len() <= old(self).arena@.len() + 8 * (21 - depth),
            (depth > MAX_DEPTH || (old(self).arena@[ni as int].particle_index < 0
                && old(self).arena@[ni as int].children_start == 0)) ==> final(self).arena@.len()
                == old(self).arena@.len(),
            forall|j: int|
                0 <= j < old(self).depths@.len() ==> final(self).depths@[j] == old(
                    self,
                ).depths@[j],
            forall|j: int|
                0 <= j < old(self).arena@.len() && j != locate(
                    old(self).arena@,
                    ni as int,
                    paths@[pi as int],
                    depth as int,
                ) ==> final(self).arena@[j] == old(self).arena@[j],
            placed_ok(
                final(self).arena@,
                final(self).depths@,
                final(self).placements@,
                paths@,
                placed.insert(pi as int),
            ),
            log_wf(
                final(self).arena@,
                final(self).depths@,
                final(self).placements@,
                paths@.len() as int,
            ),
            final(self).placements@.len() >= old(self).placements@.len(),
            forall|k: int|
                0 <= k < old(self).placements@.len() ==> final(self).placements@[k] == old(
                    self,
                ).placements@[k],
        decreases 21 - depth,
    {
        let ghost a0 = self.arena@;
        let ghost d0 = self.depths@;
        let ghost l0 = self.placements@;
        let ghost pp = paths@;
        let ghost p = paths@[pi as int];
        let ghost n = paths@.len() as int;
        let arena_len = self.arena.len();
        proof {
            lemma_passes_chain(a0, d0, 0, p, ni as int);
        }
        if depth > MAX_DEPTH {
            self.placements.push(Placement { node: ni, particle: pi, merged: true });
            proof {
                let l1 = self.placements@;
                let e = Placement { node: ni, particle: pi, merged: true };
                assert(l1[l0.len() as int] == e);
                assert(locate(a0, ni as int, p, depth as int) == ni);
                assert forall|q: int| #[trigger] placed.insert(pi as int).contains(q) implies 0 <= q
                    < pp.len() && holds(a0, d0, l1, home(a0, pp[q]), q) by {
                    if q == pi {
                        assert(l1.contains(e));
                    } else {
                        lemma_locate_leaf(a0, d0, 0, pp[q]);
                        lemma_holds_keep(a0, d0, l0, a0, d0, l1, home(a0, pp[q]), q);
                    }
                }
                lemma_log_keep(a0, d0, l0, a0, d0, l1, n);
                assert(a0[ni as int].children_start == 0);
                lemma_merge_log(a0, l0, l1, pp, placed, ni as int, pi as int, depth as int);
                lemma_internal_at_leaf(a0, l0, a0, l1, pp, ni as int, e);
            }
            return;
        }
        let node = self.arena[ni];
        let is_leaf = node.is_leaf();
        let is_empty = node.is_empty();
        if is_empty && is_leaf {
            let mut stored = node;
            stored.particle_index = pi as i32;
            self.arena.set(ni, stored);
            self.placements.push(Placement { node: ni, particle: pi, merged: false });
            proof {
                lemma_store_step(a0, d0, l0, self.arena@, self.placements@, pp, placed, ni as int, pi as int);
                lemma_internal_at_leaf(
                    a0,
                    l0,
                    self.arena@,
                    self.placements@,
                    pp,
                    ni as int,
                    Placement { node: ni, particle: pi, merged: false },
                );
            }
            return;
        }
        if is_leaf {
            let old_pi = node.particle_index;
            self.subdivide(ni);
            let mut cleared = self.arena[ni];
            cleared.particle_index = -1;
            self.arena.set(ni, cleared);
            let ghost a2 = self.arena@;
            let ghost d2 = self.depths@;
            let ghost op = pp[old_pi as int];
            let ghost rest = placed.remove(old_pi as int);
            let split_len = self.arena.len();
            proof {
                lemma_split_step(a0, d0, l0, a2, d2, pp, placed, ni as int, pi as int);
                assert(a2 =~= split_arena(a0, ni as int));
                lemma_internal_split(a0, d0, l0, a2, d2, pp, placed, ni as int, pi as int);
                assert forall|q: int| 0 <= q < old_pi implies #[trigger] rest.contains(q) by {
                    assert(placed.contains(q));
                }
            }
            let oct_old = path_octant(paths[old_pi as usize], depth);
            let ci_old = self.arena[ni].children_start + oct_old;
            self.insert(ci_old, paths, old_pi as usize, depth + 1, Ghost(rest));
            let ghost a3 = self.arena@;
            let ghost d3 = self.depths@;
            let ghost l3 = self.placements@;
            proof {
                assert(rest.insert(old_pi as int) =~= placed);
                lemma_passes_keep(a2, a3, 0, p, 0, child_on_path(a2, ni as int, p, depth as int));
            }
            let oct_new = path_octant(paths[pi], depth);
            let ci_new = self.arena[ni].children_start + oct_new;
            proof {
                assert forall|k: int| 0 <= k < l0.len() implies l3[k] == l0[k] && (
                #[trigger] l0[k]).node < arena_len by {}
                lemma_second_walk(
                    a3,
                    d3,
                    l0,
                    l3,
                    p,
                    ci_new as int,
                    arena_len as int,
                    old_pi as int,
                    pi as int,
                );
            }
            self.insert(ci_new, paths, pi, depth + 1, Ghost(placed));
            proof {
                lemma_grows_trans(a0, a2, a3);
                lemma_grows_trans(a0, a3, self.arena@);
                lemma_locate_leaf(a3, d3, ci_new as int, p);
                let l4 = self.placements@;
                assert forall|k: int| l0.len() <= k < l4.len() implies (#[trigger] l4[k]).particle
                    <= pi by {
                    if k < l3.len() {
                        assert(l4[k] == l3[k]);
                    }
                }
            }
            return;
        }
        let oct = path_octant(paths[pi], depth);
        proof {
            assert(a0[ni as int].children_start != 0);
            assert(node.children_start + 8 <= a0.len());
            lemma_walk_child(a0, l0, p, ni as int, depth as int, pi as int);
        }
        let ci = node.children_start + oct;
        self.insert(ci, paths, pi, depth + 1, Ghost(placed));
    }

    /// Splits leaf `ni`: eight fresh empty children are appended and `ni`
    /// points at the first of them.
    fn subdivide(&mut self, ni: usize)
        requires
            ni < old(self).arena@.len(),
            old(self).next_node_id == old(self).arena@.len() as u32,
            old(self).depths@.len() == old(self).arena@.len(),
        ensures
            ({
                let a0 = old(self).arena@;
                let len = a0.len();
                let a1 = final(self).arena@;
                &&& a1.len() == len + 8
                &&& a1[ni as int] == OctNode { children_start: len as usize, ..a0[ni as int] }
                &&& forall|j: int| 0 <= j < len && j != ni ==> a1[j] == a0[j]
                &&& forall|j: int|
                    len <= j < len + 8 ==> a1[j] == OctNode {
                        particle_index: -1i32,
                        children_start: 0,
                        id: j as u32,
                    }
                &&& final(self).next_node_id == a1.len() as u32
                &&& final(self).depths@ == old(self).depths@ + Seq::new(
                    8,
                    |o: int| old(self).depths@[ni as int] + 1,
                )
                &&& final(self).placements == old(self).placements
            }),
    {
        let ghost a0 = self.arena@;
        let ghost d0 = self.depths@;
        let cs = self.arena.len();
        let mut node = self.arena[ni];
        node.children_start = cs;
        self.arena.set(ni, node);
        let mut oct: usize = 0;
        while oct < 8
            invariant
                0 <= oct <= 8,
                ni < cs,
                cs == a0.len(),
                self.arena@.len() == cs + oct,
                self.arena@[ni as int] == (OctNode { children_start: cs, ..a0[ni as int] }),
                forall|j: int| 0 <= j < cs && j != ni ==> self.arena@[j] == a0[j],
                forall|j: int|
                    cs <= j < cs + oct ==> self.arena@[j] == (OctNode {
                        particle_index: -1i32,
                        children_start: 0,
                        id: j as u32,
                    }),
                self.next_node_id == self.arena@.len() as u32,
                self.depths@ == d0,
                self.placements == old(self).placements,
            decreases 8 - oct,
        {
            proof {
                lemma_id_step(self.arena.len(), self.next_node_id);
            }
            let id = self.alloc_id();
            self.arena.push(OctNode::new(id));
            oct = oct + 1;
        }
        self.depths = Ghost(d0 + Seq::new(8, |o: int| d0[ni as int] + 1));
    }
}

} // verus!
