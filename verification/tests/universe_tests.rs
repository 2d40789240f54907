use universe_wasm::octree::path_with_octant;
use universe_wasm::universe::STRIDE;
use universe_wasm::{ForceMode, Universe};

#[test]
fn new_universe() {
    let u: Universe<[i32; 3]> = Universe::new(3);
    assert_eq!(u.num_particles(), 3);
    assert_eq!(u.buffer_len(), 3 * STRIDE);
    assert_eq!(u.buffer_len(), 21);
    assert_eq!(u.get_mode(), 0);
    assert_eq!(u.frame_count(), 0);
    assert_eq!(u.tree_node_count(), 0);
    assert_eq!(u.cache_hits(), 0);
    assert_eq!(u.cache_misses(), 0);
    assert_eq!(u.cache_size(), 0);
}

#[test]
fn set_mode_clamps() {
    let mut u: Universe<u8> = Universe::new(0);
    u.set_mode(1);
    assert_eq!(u.get_mode(), 1);
    u.set_mode(2);
    assert_eq!(u.get_mode(), 2);
    u.set_mode(7);
    assert_eq!(u.get_mode(), 2);
    u.set_mode(0);
    assert_eq!(u.get_mode(), 0);
}

#[test]
fn force_mode_per_mode() {
    let mut u: Universe<u8> = Universe::new(0);
    assert_eq!(u.force_mode(), ForceMode::Exact);
    u.set_mode(1);
    assert_eq!(u.force_mode(), ForceMode::Quantized { use_cache: false });
    u.set_mode(2);
    assert_eq!(u.force_mode(), ForceMode::Quantized { use_cache: true });
    u.set_mode(u32::MAX);
    assert_eq!(u.force_mode(), ForceMode::Quantized { use_cache: true });
}

#[test]
fn step_bookkeeping() {
    let mut u: Universe<[i32; 3]> = Universe::new(2);
    u.begin_step();
    let paths = vec![path_with_octant(0, 0, 0), path_with_octant(0, 0, 7)];
    u.build_octree(&paths);
    assert_eq!(u.tree_node_count(), 9);
    assert_eq!(u.tree().node(8).particle_index, 1);
    assert_eq!(u.cache_lookup(5), None);
    u.cache_store(5, [1, 2, 3]);
    assert_eq!(u.cache_lookup(5), Some([1, 2, 3]));
    assert_eq!(u.cache_hits(), 1);
    assert_eq!(u.cache_misses(), 1);
    assert_eq!(u.cache_size(), 1);
    assert_eq!(u.cache_lookups(), 2);
    assert!(u.cache_contains(5));
    assert!(!u.cache_contains(6));
    assert_eq!(u.cache_size(), u.cache_misses());
    u.finish_step();
    assert_eq!(u.frame_count(), 1);
    u.begin_step();
    assert_eq!(u.cache_size(), 0);
    assert_eq!(u.cache_hits(), 0);
    assert_eq!(u.cache_misses(), 0);
    u.finish_step();
    assert_eq!(u.frame_count(), 2);
}

#[test]
fn reset_stats_zeroes_counters() {
    let mut u: Universe<u8> = Universe::new(1);
    u.cache_store(1, 9);
    assert_eq!(u.cache_lookup(1), Some(9));
    u.finish_step();
    u.reset_stats();
    assert_eq!(u.frame_count(), 0);
    assert_eq!(u.cache_hits(), 0);
    assert_eq!(u.cache_misses(), 0);
    assert_eq!(u.cache_size(), 1);
}

#[test]
fn empty_universe_keeps_tree() {
    let mut u: Universe<u8> = Universe::new(0);
    u.build_octree(&vec![]);
    assert_eq!(u.tree_node_count(), 0);
}

#[test]
fn step_forgets_history() {
    let paths = vec![
        path_with_octant(0, 0, 3),
        path_with_octant(path_with_octant(0, 0, 3), 1, 6),
        path_with_octant(0, 0, 1),
    ];
    let mut fresh: Universe<u8> = Universe::new(3);
    let mut used: Universe<u8> = Universe::new(3);
    used.begin_step();
    used.build_octree(&vec![0u64, 0u64, 0u64]);
    used.cache_store(11, 1);
    used.cache_store(12, 2);
    assert_eq!(used.cache_lookup(11), Some(1));
    used.finish_step();
    for u in [&mut fresh, &mut used] {
        u.begin_step();
        u.build_octree(&paths);
    }
    assert_eq!(fresh.tree_node_count(), used.tree_node_count());
    assert_eq!(fresh.cache_hits(), used.cache_hits());
    assert_eq!(fresh.cache_misses(), used.cache_misses());
    assert_eq!(fresh.cache_size(), used.cache_size());
    assert_eq!(fresh.cache_size(), 0);
    let (a, b) = (fresh.tree(), used.tree());
    for i in 0..a.node_count() {
        let (x, y) = (a.node(i), b.node(i));
        assert_eq!((x.particle_index, x.children_start, x.id), (y.particle_index, y.children_start, y.id));
    }
    let la: Vec<_> = a.placements().iter().map(|e| (e.node, e.particle, e.merged)).collect();
    let lb: Vec<_> = b.placements().iter().map(|e| (e.node, e.particle, e.merged)).collect();
    assert_eq!(la, lb);
}
