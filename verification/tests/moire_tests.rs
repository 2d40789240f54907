use universe_wasm::MoireEngine;

#[test]
fn dimensions_and_buffers() {
    let e = MoireEngine::new(4, 3, 10);
    assert_eq!(e.grid_width(), 4);
    assert_eq!(e.grid_height(), 3);
    assert_eq!(e.bg_count(), 12);
    assert_eq!(e.fg_count(), 10);
    assert_eq!(e.displacement_len(), 24);
    assert_eq!(e.fg_buffer_len(), 50);
}

#[test]
fn node_offsets_row_major() {
    let e = MoireEngine::new(4, 3, 0);
    assert_eq!(e.node_offset(0, 0), 0);
    assert_eq!(e.node_offset(1, 0), 2);
    assert_eq!(e.node_offset(0, 1), 8);
    assert_eq!(e.node_offset(3, 2), 22);
}

#[test]
fn quadrants_split_at_half() {
    let e = MoireEngine::new(4, 4, 0);
    // row 0: x 0,1 -> TL; x 2,3 -> TR
    assert_eq!(e.quadrant_of(0), 0);
    assert_eq!(e.quadrant_of(1), 0);
    assert_eq!(e.quadrant_of(2), 1);
    assert_eq!(e.quadrant_of(3), 1);
    // row 2: bottom
    assert_eq!(e.quadrant_of(8), 2);
    assert_eq!(e.quadrant_of(11), 3);
    assert_eq!(e.quadrant_of(15), 3);
}

#[test]
fn quadrants_on_odd_and_thin_grids() {
    let e = MoireEngine::new(3, 3, 0);
    // mid = 1: only column 0 / row 0 are on the low side
    assert_eq!(e.quadrant_of(0), 0);
    assert_eq!(e.quadrant_of(1), 1);
    assert_eq!(e.quadrant_of(3), 2);
    assert_eq!(e.quadrant_of(4), 3);
    let thin = MoireEngine::new(1, 1, 0);
    assert_eq!(thin.quadrant_of(0), 3);
    let mut counts = [0usize; 4];
    let g = MoireEngine::new(5, 4, 0);
    for i in 0..g.bg_count() {
        counts[g.quadrant_of(i)] += 1;
    }
    assert_eq!(counts, [4, 6, 4, 6]);
}
