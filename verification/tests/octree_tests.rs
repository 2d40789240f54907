use universe_wasm::octree::{octant_index, path_octant, path_with_octant, MAX_DEPTH};
use universe_wasm::{OctNode, Octree};

fn path_of(octs: &[usize]) -> u64 {
    let mut p = 0u64;
    for (d, o) in octs.iter().enumerate() {
        p = path_with_octant(p, d as u32, *o);
    }
    p
}

fn stored(t: &Octree) -> Vec<(usize, usize, bool)> {
    t.placements().iter().map(|e| (e.node, e.particle, e.merged)).collect()
}

#[test]
fn octant_index_bits() {
    assert_eq!(octant_index(false, false, false), 0);
    assert_eq!(octant_index(true, false, false), 1);
    assert_eq!(octant_index(false, true, false), 2);
    assert_eq!(octant_index(false, false, true), 4);
    assert_eq!(octant_index(true, false, true), 5);
    assert_eq!(octant_index(true, true, true), 7);
}

#[test]
fn path_read_after_write() {
    let p = path_with_octant(0, 3, 5);
    assert_eq!(p, 5u64 << 9);
    assert_eq!(path_octant(p, 3), 5);
    assert_eq!(path_octant(p, 2), 0);
    let q = path_with_octant(p, MAX_DEPTH, 7);
    assert_eq!(path_octant(q, MAX_DEPTH), 7);
    assert_eq!(path_octant(q, 3), 5);
    assert_eq!(q, (5u64 << 9) | (7u64 << 60));
}

#[test]
fn node_predicates() {
    let n = OctNode::new(4);
    assert_eq!(n.particle_index, -1);
    assert_eq!(n.children_start, 0);
    assert_eq!(n.id, 4);
    assert!(n.is_leaf());
    assert!(n.is_empty());
    let held = OctNode { particle_index: 2, children_start: 0, id: 1 };
    assert!(held.is_leaf());
    assert!(!held.is_empty());
    assert!(held.is_leaf_of(2));
    assert!(!held.is_leaf_of(3));
    assert!(!n.is_leaf_of(0));
    let inner = OctNode { particle_index: -1, children_start: 9, id: 1 };
    assert!(!inner.is_leaf());
    assert!(!inner.is_empty());
}

#[test]
fn empty_build_keeps_tree() {
    let mut t = Octree::new();
    t.build(&vec![]);
    assert_eq!(t.node_count(), 0);
    t.build(&vec![path_of(&[1])]);
    assert_eq!(t.node_count(), 1);
    t.build(&vec![]);
    assert_eq!(t.node_count(), 1);
}

#[test]
fn single_particle_sits_at_root() {
    let mut t = Octree::new();
    t.build(&vec![path_of(&[3, 4])]);
    assert_eq!(t.node_count(), 1);
    let root = t.node(0);
    assert_eq!(root.particle_index, 0);
    assert_eq!(root.children_start, 0);
    assert_eq!(root.id, 0);
    assert_eq!(stored(&t), vec![(0, 0, false)]);
}

#[test]
fn two_particles_split_the_root() {
    let mut t = Octree::new();
    t.build(&vec![path_of(&[0]), path_of(&[7])]);
    assert_eq!(t.node_count(), 9);
    let root = t.node(0);
    assert_eq!(root.children_start, 1);
    assert_eq!(root.particle_index, -1);
    assert_eq!(t.node(1).particle_index, 0);
    assert_eq!(t.node(8).particle_index, 1);
    for i in 0..9 {
        assert_eq!(t.node(i).id, i as u32);
    }
    assert_eq!(stored(&t), vec![(0, 0, false), (1, 0, false), (8, 1, false)]);
}

#[test]
fn shared_first_octant_splits_again() {
    let mut t = Octree::new();
    t.build(&vec![path_of(&[0, 1]), path_of(&[0, 2])]);
    assert_eq!(t.node_count(), 17);
    assert_eq!(t.node(0).children_start, 1);
    assert_eq!(t.node(1).children_start, 9);
    assert_eq!(t.node(1).particle_index, -1);
    assert_eq!(t.node(10).particle_index, 0);
    assert_eq!(t.node(11).particle_index, 1);
    assert_eq!(
        stored(&t),
        vec![(0, 0, false), (1, 0, false), (10, 0, false), (11, 1, false)]
    );
}

#[test]
fn identical_paths_merge_below_split_depth() {
    let mut t = Octree::new();
    t.build(&vec![0u64, 0u64]);
    assert_eq!(t.node_count(), 1 + 8 * 21);
    let log = stored(&t);
    assert_eq!(log.len(), 23);
    assert_eq!(log[21], (161, 0, true));
    assert_eq!(log[22], (161, 1, true));
    assert_eq!(t.node(161).particle_index, -1);
    assert_eq!(t.node(161).children_start, 0);
}

#[test]
fn every_particle_rests_at_end_of_its_path() {
    let paths: Vec<u64> = vec![
        path_of(&[0, 1, 2]),
        path_of(&[0, 1, 3]),
        path_of(&[5]),
        path_of(&[0, 2]),
        path_of(&[6, 6, 6, 1]),
        path_of(&[6, 6, 6, 2]),
    ];
    let mut t = Octree::new();
    t.build(&paths);
    for (q, p) in paths.iter().enumerate() {
        let mut i = 0usize;
        let mut d = 0u32;
        while t.node(i).children_start != 0 {
            i = t.node(i).children_start + path_octant(*p, d);
            d += 1;
        }
        assert_eq!(t.node(i).particle_index, q as i32);
    }
}

#[test]
fn rebuild_clears_previous_tree() {
    let mut t = Octree::new();
    t.build(&vec![path_of(&[0]), path_of(&[7])]);
    t.build(&vec![path_of(&[2])]);
    assert_eq!(t.node_count(), 1);
    assert_eq!(t.node(0).particle_index, 0);
    assert_eq!(stored(&t), vec![(0, 0, false)]);
}

fn walks_through(t: &Octree, p: u64, target: usize) -> bool {
    let mut i = 0usize;
    let mut d = 0u32;
    loop {
        if i == target {
            return true;
        }
        if t.node(i).children_start == 0 || d > MAX_DEPTH {
            return false;
        }
        i = t.node(i).children_start + path_octant(p, d);
        d += 1;
    }
}

#[test]
fn split_nodes_are_shared_by_two_particles() {
    let paths: Vec<u64> = vec![
        path_of(&[1, 1, 1, 1]),
        path_of(&[1, 1, 1, 2]),
        path_of(&[1, 3]),
        path_of(&[4, 4]),
        path_of(&[2]),
    ];
    let mut t = Octree::new();
    t.build(&paths);
    let mut internal = 0;
    for i in 0..t.node_count() {
        let through = paths.iter().filter(|p| walks_through(&t, **p, i)).count();
        if t.node(i).children_start != 0 {
            internal += 1;
            assert!(through >= 2);
        } else {
            assert!(through <= 1);
        }
    }
    // root, [1], [1,1], [1,1,1]
    assert_eq!(internal, 4);
    assert_eq!(t.node_count(), 1 + 8 * 4);
}

fn rest_of(t: &Octree, p: u64) -> usize {
    let mut i = 0usize;
    let mut d = 0u32;
    while t.node(i).children_start != 0 && d <= MAX_DEPTH {
        i = t.node(i).children_start + path_octant(p, d);
        d += 1;
    }
    i
}

#[test]
fn leaf_log_entries_are_exactly_the_residents() {
    let paths: Vec<u64> = vec![
        path_of(&[3, 3]),
        0u64,
        path_of(&[3, 4]),
        0u64,
        path_of(&[5]),
        0u64,
    ];
    let mut t = Octree::new();
    t.build(&paths);
    let log = stored(&t);
    let mut per_leaf: Vec<Vec<usize>> = vec![Vec::new(); t.node_count()];
    for (node, particle, _) in log.iter() {
        if t.node(*node).children_start == 0 {
            assert_eq!(rest_of(&t, paths[*particle]), *node);
            per_leaf[*node].push(*particle);
        }
    }
    for (q, p) in paths.iter().enumerate() {
        assert!(per_leaf[rest_of(&t, *p)].contains(&q));
    }
    for list in per_leaf.iter() {
        for w in list.windows(2) {
            assert!(w[0] < w[1]);
        }
    }
    // the three identical paths share one node below the split depth
    let deep = rest_of(&t, 0);
    assert_eq!(per_leaf[deep], vec![1, 3, 5]);
}

#[test]
fn node_count_bound() {
    let mut t = Octree::new();
    t.build(&vec![0u64, 0u64]);
    assert_eq!(t.node_count(), 1 + 168);
    let paths: Vec<u64> = (0..20u64).map(|i| path_of(&[(i % 8) as usize, (i / 8) as usize])).collect();
    t.build(&paths);
    assert!(t.node_count() <= 1 + 168 * 19);
}

#[test]
fn internal_nodes_named_once_by_their_first_resident() {
    let paths: Vec<u64> = vec![
        path_of(&[2, 5, 1]),
        path_of(&[2, 5, 3]),
        path_of(&[2, 6]),
        path_of(&[7]),
        path_of(&[2, 5, 1, 4]),
        0u64,
        0u64,
    ];
    let mut t = Octree::new();
    t.build(&paths);
    let log = stored(&t);
    for j in 0..t.node_count() {
        if t.node(j).children_start != 0 {
            let entries: Vec<&(usize, usize, bool)> = log.iter().filter(|e| e.0 == j).collect();
            assert_eq!(entries.len(), 1);
            let (_, particle, merged) = *entries[0];
            assert!(!merged);
            let smallest = (0..paths.len()).find(|q| walks_through(&t, paths[*q], j)).unwrap();
            assert_eq!(particle, smallest);
        }
    }
}
