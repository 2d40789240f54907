//! Grid bookkeeping of the moiré parallax engine: the background lattice,
//! the size of its buffers and the quadrant of each lattice node.
use vstd::prelude::*;

verus! {

/// Floats per foreground particle: x, y, vx, vy, influence.
pub const FG_STRIDE: usize = 5;

/// Floats per background node and per displacement: x, y or dx, dy.
pub const BG_STRIDE: usize = 2;

/// The quadrant of the lattice node at column `x` and row `y` of a
/// `w` by `h` grid: 0 top-left, 1 top-right, 2 bottom-left, 3 bottom-right,
/// split at column `w / 2` and row `h / 2`.
pub open spec fn spec_quadrant(w: int, h: int, x: int, y: int) -> int {
    (if x < w / 2 { 0int } else { 1int }) + (if y < h / 2 { 0int } else { 2int })
}

/// The integer state of a moiré engine: a `grid_w` by `grid_h` background
/// lattice and `fg_count` foreground particles.
pub struct MoireEngine {
    grid_w: usize,
    grid_h: usize,
    fg_count: usize,
    bg_count: usize,
}

impl MoireEngine {
    pub closed spec fn width(&self) -> nat {
        self.grid_w as nat
    }

    pub closed spec fn height(&self) -> nat {
        self.grid_h as nat
    }

    pub closed spec fn foreground(&self) -> nat {
        self.fg_count as nat
    }

    /// The lattice has `width * height` nodes and every buffer fits in memory.
    pub closed spec fn wf(&self) -> bool {
        &&& self.bg_count == self.grid_w * self.grid_h
        &&& self.bg_count * BG_STRIDE <= usize::MAX
        &&& self.fg_count * FG_STRIDE <= usize::MAX
    }

    /// An engine over a `grid_w` by `grid_h` lattice with `fg_count`
    /// foreground particles.
    pub fn new(grid_w: usize, grid_h: usize, fg_count: usize) -> (e: MoireEngine)
        requires
            grid_w * grid_h * BG_STRIDE <= usize::MAX,
            fg_count * FG_STRIDE <= usize::MAX,
        ensures
            e.wf(),
            e.width() == grid_w,
            e.height() == grid_h,
            e.foreground() == fg_count,
    {
        proof {
            assert(grid_w * grid_h <= grid_w * grid_h * BG_STRIDE) by (nonlinear_arith);
        }
        let bg_count = grid_w * grid_h;
        MoireEngine { grid_w, grid_h, fg_count, bg_count }
    }

    pub fn grid_width(&self) -> (r: usize)
        ensures
            r == self.width(),
    {
        self.grid_w
    }

    pub fn grid_height(&self) -> (r: usize)
        ensures
            r == self.height(),
    {
        self.grid_h
    }

    /// Number of background lattice nodes.
    pub fn bg_count(&self) -> (r: usize)
        requires
            self.wf(),
        ensures
            r == self.width() * self.height(),
    {
        self.bg_count
    }

    /// Number of foreground particles.
    pub fn fg_count(&self) -> (r: usize)
        ensures
            r == self.foreground(),
    {
        self.fg_count
    }

    /// Length of the displacement buffer: a `dx, dy` pair per node.
    pub fn displacement_len(&self) -> (r: usize)
        requires
            self.wf(),
        ensures
            r == self.width() * self.height() * BG_STRIDE,
    {
        self.bg_count * BG_STRIDE
    }

    /// Length of the foreground particle buffer.
    pub fn fg_buffer_len(&self) -> (r: usize)
        requires
            self.wf(),
        ensures
            r == self.foreground() * FG_STRIDE,
    {
        self.fg_count * FG_STRIDE
    }

    /// Offset in the lattice and displacement buffers of the node at
    /// column `x`, row `y`.
    pub fn node_offset(&self, x: usize, y: usize) -> (r: usize)
        requires
            self.wf(),
            x < self.width(),
            y < self.height(),
        ensures
            r == (y * self.width() + x) * BG_STRIDE,
            r + BG_STRIDE <= self.width() * self.height() * BG_STRIDE,
    {
        proof {
            let (w, h) = (self.grid_w as int, self.grid_h as int);
            assert(y * w + x < w * h) by (nonlinear_arith)
                requires
                    0 <= x < w,
                    0 <= y < h,
            ;
        }
        (y * self.grid_w + x) * BG_STRIDE
    }

    /// The quadrant of lattice node `node_i` (row-major order).
    pub fn quadrant_of(&self, node_i: usize) -> (r: usize)
        requires
            self.wf(),
            node_i < self.width() * self.height(),
        ensures
            r == spec_quadrant(
                self.width() as int,
                self.height() as int,
                node_i as int % self.width() as int,
                node_i as int / self.width() as int,
            ),
            r < 4,
            (r >= 2) <==> (node_i as int / self.width() as int >= self.height() as int / 2),
            (r % 2 == 1) <==> (node_i as int % self.width() as int >= self.width() as int / 2),
    {
        proof {
            let (w, h) = (self.grid_w as int, self.grid_h as int);
            assert(w == 0 ==> w * h == 0) by (nonlinear_arith);
        }
        let y = node_i / self.grid_w;
        let x = node_i % self.grid_w;
        let mid_x = self.grid_w / 2;
        let mid_y = self.grid_h / 2;
        if x < mid_x {
            if y < mid_y {
                0
            } else {
                2
            }
        } else {
            if y < mid_y {
                1
            } else {
                3
            }
        }
    }
}


/// The quadrant splits rows by the height and columns by the width: a node
/// is in the bottom half (quadrant 2 or 3) exactly when its row is at least
/// `h / 2`, and in the right half (quadrant 1 or 3) exactly when its column
/// is at least `w / 2`; each of the four quadrants is one combination of
/// the two halves.
pub proof fn lemma_quadrant_halves(w: int, h: int, x: int, y: int)
    ensures
        0 <= spec_quadrant(w, h, x, y) < 4,
        (spec_quadrant(w, h, x, y) >= 2) <==> (y >= h / 2),
        (spec_quadrant(w, h, x, y) % 2 == 1) <==> (x >= w / 2),
        spec_quadrant(w, h, x, y) == 0 <==> (x < w / 2 && y < h / 2),
        spec_quadrant(w, h, x, y) == 1 <==> (x >= w / 2 && y < h / 2),
        spec_quadrant(w, h, x, y) == 2 <==> (x < w / 2 && y >= h / 2),
        spec_quadrant(w, h, x, y) == 3 <==> (x >= w / 2 && y >= h / 2),
{
}

/// The top/bottom side of a node depends on the height and not on the
/// width, and its left/right side on the width and not on the height.
pub proof fn lemma_quadrant_sides_independent(w: int, w2: int, h: int, h2: int, x: int, y: int)
    ensures
        spec_quadrant(w, h, x, y) % 2 == spec_quadrant(w, h2, x, y) % 2,
        (spec_quadrant(w, h, x, y) >= 2) == (spec_quadrant(w2, h, x, y) >= 2),
{
}

} // verus!
