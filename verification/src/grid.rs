use vstd::prelude::*;

verus! {

/// A coordinate on the grid: `x` is the column, `y` the row.
#[derive(Debug, Copy, Clone, PartialEq, Eq, Structural)]
pub struct Pos {
    pub x: usize,
    pub y: usize,
}

/// The state of one grid cell. A cell carrying a distance records the
/// tentative path length from the start; `0` doubles as the sentinel for
/// "not yet discovered".
#[derive(Debug, Copy, Clone, PartialEq, Eq, Structural)]
pub enum Elem {
    /// Reachable and not yet expanded; the payload is the tentative
    /// distance from the start (`0` meaning undiscovered).
    Uncheck(u32),
    /// Expanded: its neighbors have been examined; the distance is final.
    Check(u32),
    /// The unique origin cell.
    Start,
    /// The goal cell.
    End,
    /// Impassable; never enters a search frontier.
    Wall,
}

/// Mathematical model of a grid: the abstract value that contracts speak of.
#[verifier::ext_equal]
pub ghost struct GridModel {
    pub width: int,
    pub height: int,
    pub start: Pos,
    pub end: Pos,
    pub cells: Seq<Elem>,
}

/// A rectangular grid of cells in row-major order.
#[derive(Debug, PartialEq, Eq)]
pub struct Grid {
    pub width: usize,
    pub height: usize,
    pub start: Pos,
    pub end: Pos,
    pub cells: Vec<Elem>,
}

impl View for Grid {
    type V = GridModel;

    open spec fn view(&self) -> GridModel {
        GridModel {
            width: self.width as int,
            height: self.height as int,
            start: self.start,
            end: self.end,
            cells: self.cells@,
        }
    }
}

/// The tentative distance recorded in a cell, or `0` for cells that carry none.
pub open spec fn dist_of(c: Elem) -> int {
    match c {
        Elem::Uncheck(n) => n as int,
        Elem::Check(n) => n as int,
        _ => 0,
    }
}

pub open spec fn is_uncheck(c: Elem) -> bool {
    match c {
        Elem::Uncheck(_) => true,
        _ => false,
    }
}

pub open spec fn is_check(c: Elem) -> bool {
    match c {
        Elem::Check(_) => true,
        _ => false,
    }
}

/// A cell that a search may step onto: not a wall, not the start, not expanded.
pub open spec fn open_cell(c: Elem) -> bool {
    match c {
        Elem::Uncheck(_) => true,
        Elem::End => true,
        _ => false,
    }
}

/// A cell that carries a discovered (nonzero) distance.
pub open spec fn is_positive_dist(c: Elem) -> bool {
    (is_uncheck(c) || is_check(c)) && dist_of(c) >= 1
}

impl GridModel {
    /// Row-major index of a position.
    pub open spec fn idx(self, p: Pos) -> int {
        p.x + self.width * p.y
    }

    pub open spec fn in_bounds(self, p: Pos) -> bool {
        p.x < self.width && p.y < self.height
    }

    pub open spec fn cell(self, p: Pos) -> Elem {
        self.cells[self.idx(p)]
    }

    /// Positive dimensions and a row-major cell array of matching size.
    pub open spec fn dims_ok(self) -> bool {
        &&& 1 <= self.width
        &&& 1 <= self.height
        &&& self.cells.len() == self.width * self.height
    }

    /// Structural well-formedness: positive dimensions, a row-major cell
    /// array of matching size, start and end in bounds and marked. When the
    /// start and the end coincide, the one cell is marked `End`.
    pub open spec fn wf(self) -> bool {
        &&& self.dims_ok()
        &&& self.in_bounds(self.start)
        &&& self.in_bounds(self.end)
        &&& self.cell(self.end) == Elem::End
        &&& (self.start != self.end ==> self.cell(self.start) == Elem::Start)
    }

    /// No cell carries a discovered distance yet: the state a freshly loaded
    /// grid is in. Searches are destructive and single-use, so they ask for
    /// this of their input.
    pub open spec fn zero_dists(self) -> bool {
        forall|i: int| 0 <= i < self.cells.len() ==> dist_of(#[trigger] self.cells[i]) == 0
    }

    /// A freshly loaded, unsearched grid: well-formed, and every cell is
    /// undiscovered open space or a wall, except the one start marker and
    /// the one goal marker.
    pub open spec fn fresh(self) -> bool {
        &&& self.wf()
        &&& forall|i: int|
            0 <= i < self.cells.len() ==> {
                ||| #[trigger] self.cells[i] == Elem::Uncheck(0u32)
                ||| self.cells[i] == Elem::Wall
                ||| (i == self.idx(self.start) && self.start != self.end && self.cells[i]
                    == Elem::Start)
                ||| (i == self.idx(self.end) && self.cells[i] == Elem::End)
            }
    }
}

/// Manhattan distance between two positions, as a mathematical value.
pub open spec fn spec_dist(p1: Pos, p2: Pos) -> int {
    abs_diff(p1.x as int, p2.x as int) + abs_diff(p1.y as int, p2.y as int)
}

pub open spec fn abs_diff(a: int, b: int) -> int {
    if a >= b { a - b } else { b - a }
}

pub proof fn lemma_row_major(x: int, y: int, w: int, h: int)
    by (nonlinear_arith)
    requires
        0 <= x < w,
        0 <= y < h,
    ensures
        0 <= x + w * y < w * h,
{
}

proof fn lemma_row_major_inj(x1: int, y1: int, x2: int, y2: int, w: int)
    by (nonlinear_arith)
    requires
        0 <= x1 < w,
        0 <= x2 < w,
        0 <= y1,
        0 <= y2,
        x1 + w * y1 == x2 + w * y2,
    ensures
        x1 == x2 && y1 == y2,
{
}

/// Every in-bounds position has an in-range row-major index.
pub proof fn lemma_idx_bounds(g: GridModel, p: Pos)
    requires
        g.dims_ok(),
        g.in_bounds(p),
    ensures
        0 <= g.idx(p) < g.cells.len(),
{
    lemma_row_major(p.x as int, p.y as int, g.width, g.height);
}

/// The row-major index is injective over in-bounds positions.
pub proof fn lemma_idx_inj(g: GridModel)
    requires
        g.dims_ok(),
    ensures
        forall|p: Pos, q: Pos|
            g.in_bounds(p) && g.in_bounds(q) && #[trigger] g.idx(p) == #[trigger] g.idx(q) ==> p
                == q,
{
    assert forall|p: Pos, q: Pos|
        g.in_bounds(p) && g.in_bounds(q) && #[trigger] g.idx(p) == #[trigger] g.idx(q) implies p
        == q by {
        lemma_row_major_inj(p.x as int, p.y as int, q.x as int, q.y as int, g.width);
    }
}

/// Within one grid, the Manhattan distance of two positions is below the
/// cell count (so it fits comfortably in the machine integers used here).
pub proof fn lemma_dist_in_grid(g: GridModel, p: Pos, q: Pos)
    requires
        g.dims_ok(),
        g.in_bounds(p),
        g.in_bounds(q),
    ensures
        0 <= spec_dist(p, q) <= g.cells.len(),
{
    assert((g.width - 1) * (g.height - 1) >= 0) by (nonlinear_arith)
        requires g.width >= 1 && g.height >= 1;
    assert(g.width + g.height <= g.width * g.height + 1) by (nonlinear_arith)
        requires g.width >= 1 && g.height >= 1;
}

/// Row-major index of an in-bounds position, as executable code.
pub fn cell_index(grid: &Grid, p: Pos) -> (i: usize)
    requires
        grid@.dims_ok(),
        grid@.in_bounds(p),
    ensures
        i == grid@.idx(p),
        i < grid.cells.len(),
{
    let n = grid.cells.len();
    proof {
        lemma_row_major(p.x as int, p.y as int, grid@.width, grid@.height);
        assert(p.x + grid.width * p.y < n);
    }
    p.x + grid.width * p.y
}

/// Manhattan distance `|x1 - x2| + |y1 - y2|`, the search heuristic.
pub fn dist(pos1: Pos, pos2: Pos) -> (r: u32)
    requires
        spec_dist(pos1, pos2) <= u32::MAX,
    ensures
        r as int == spec_dist(pos1, pos2),
{
    let dx: usize = if pos1.x >= pos2.x { pos1.x - pos2.x } else { pos2.x - pos1.x };
    let dy: usize = if pos1.y >= pos2.y { pos1.y - pos2.y } else { pos2.y - pos1.y };
    (dx + dy) as u32
}

/// The singleton sequence holding `q` if `q` is an admissible neighbor
/// (in bounds, and open to a search), else the empty sequence.
pub open spec fn cand_seq(g: GridModel, q: Pos) -> Seq<Pos> {
    if g.in_bounds(q) && open_cell(g.cells[g.idx(q)]) {
        seq![q]
    } else {
        Seq::empty()
    }
}

/// The admissible neighbors of `p`, in the fixed direction order
/// +x, -x, +y, -y. The order fixes frontier insertion order, and with it
/// tie-breaking in every search.
pub open spec fn spec_neighbors(g: GridModel, p: Pos) -> Seq<Pos> {
    (if p.x + 1 < g.width {
        cand_seq(g, Pos { x: (p.x + 1) as usize, y: p.y })
    } else {
        Seq::empty()
    }) + (if p.x >= 1 {
        cand_seq(g, Pos { x: (p.x - 1) as usize, y: p.y })
    } else {
        Seq::empty()
    }) + (if p.y + 1 < g.height {
        cand_seq(g, Pos { x: p.x, y: (p.y + 1) as usize })
    } else {
        Seq::empty()
    }) + (if p.y >= 1 {
        cand_seq(g, Pos { x: p.x, y: (p.y - 1) as usize })
    } else {
        Seq::empty()
    })
}

/// The (up to 4) axis-aligned adjacent positions that are in bounds and
/// whose cell is open (`Uncheck` or `End`). Walls, the start cell and
/// already-expanded cells are never returned.
#[verifier::rlimit(100)]
pub fn get_neighbors(pos: &Pos, grid: &Grid) -> (r: Vec<Pos>)
    requires
        grid@.dims_ok(),
        grid@.in_bounds(*pos),
    ensures
        r@ == spec_neighbors(grid@, *pos),
        forall|i: int|
            0 <= i < r@.len() ==> {
                &&& grid@.in_bounds(#[trigger] r@[i])
                &&& open_cell(grid@.cells[grid@.idx(r@[i])])
                &&& spec_dist(*pos, r@[i]) == 1
            },
{
    let mut r: Vec<Pos> = Vec::new();
    let ghost g = grid@;

    if pos.x + 1 < grid.width {
        let q = Pos { x: pos.x + 1, y: pos.y };
        let i = cell_index(grid, q);
        match grid.cells[i] {
            Elem::Uncheck(_) => r.push(q),
            Elem::End => r.push(q),
            _ => {},
        }
    }
    let ghost r1 = r@;
    proof {
        assert(r1 =~= if pos.x + 1 < g.width {
            cand_seq(g, Pos { x: (pos.x + 1) as usize, y: pos.y })
        } else {
            Seq::empty()
        });
    }

    if pos.x >= 1 {
        let q = Pos { x: pos.x - 1, y: pos.y };
        let i = cell_index(grid, q);
        match grid.cells[i] {
            Elem::Uncheck(_) => r.push(q),
            Elem::End => r.push(q),
            _ => {},
        }
    }
    let ghost r2 = r@;
    proof {
        assert(r2 =~= r1 + if pos.x >= 1 {
            cand_seq(g, Pos { x: (pos.x - 1) as usize, y: pos.y })
        } else {
            Seq::empty()
        });
    }

    if pos.y + 1 < grid.height {
        let q = Pos { x: pos.x, y: pos.y + 1 };
        let i = cell_index(grid, q);
        match grid.cells[i] {
            Elem::Uncheck(_) => r.push(q),
            Elem::End => r.push(q),
            _ => {},
        }
    }
    let ghost r3 = r@;
    proof {
        assert(r3 =~= r2 + if pos.y + 1 < g.height {
            cand_seq(g, Pos { x: pos.x, y: (pos.y + 1) as usize })
        } else {
            Seq::empty()
        });
    }

    if pos.y >= 1 {
        let q = Pos { x: pos.x, y: pos.y - 1 };
        let i = cell_index(grid, q);
        match grid.cells[i] {
            Elem::Uncheck(_) => r.push(q),
            Elem::End => r.push(q),
            _ => {},
        }
    }
    proof {
        assert(r@ =~= r3 + if pos.y >= 1 {
            cand_seq(g, Pos { x: pos.x, y: (pos.y - 1) as usize })
        } else {
            Seq::empty()
        });
        assert(r@ =~= spec_neighbors(g, *pos));
    }
    r
}

impl Grid {
    /// An independent copy: searches mutate their grid destructively, so each
    /// run works on a duplicate of the loaded grid.
    pub fn duplicate(&self) -> (g: Grid)
        ensures
            g@ == self@,
    {
        let mut cells: Vec<Elem> = Vec::new();
        let mut i: usize = 0;
        while i < self.cells.len()
            invariant
                i <= self.cells.len(),
                cells@ =~= self.cells@.take(i as int),
            decreases self.cells.len() - i,
        {
            cells.push(self.cells[i]);
            i += 1;
        }
        proof {
            assert(cells@ =~= self.cells@);
        }
        let g = Grid { width: self.width, height: self.height, start: self.start, end: self.end, cells };
        proof {
            assert(g@ =~= self@);
        }
        g
    }

    /// The cell at `(x, y)`, or `None` when the position is out of bounds.
    pub fn cell_at(&self, x: usize, y: usize) -> (c: Option<Elem>)
        requires
            self@.dims_ok(),
        ensures
            match c {
                Some(e) => self@.in_bounds(Pos { x, y }) && e == self@.cell(Pos { x, y }),
                None => !self@.in_bounds(Pos { x, y }),
            },
    {
        if x < self.width && y < self.height {
            let i = cell_index(self, Pos { x, y });
            Some(self.cells[i])
        } else {
            None
        }
    }
}

/// Whether two grids are equal in every observable part: dimensions, start,
/// end, and every cell.
pub fn grid_eq(a: &Grid, b: &Grid) -> (r: bool)
    ensures
        r <==> a@ == b@,
{
    if a.width != b.width || a.height != b.height {
        return false;
    }
    if a.start.x != b.start.x || a.start.y != b.start.y {
        return false;
    }
    if a.end.x != b.end.x || a.end.y != b.end.y {
        return false;
    }
    if a.cells.len() != b.cells.len() {
        return false;
    }
    let mut i: usize = 0;
    while i < a.cells.len()
        invariant
            i <= a.cells.len(),
            a.cells@.len() == b.cells@.len(),
            forall|j: int| 0 <= j < i ==> a.cells@[j] == b.cells@[j],
        decreases a.cells.len() - i,
    {
        let ca = a.cells[i];
        let cb = b.cells[i];
        if ca != cb {
            proof {
                assert(a@.cells[i as int] != b@.cells[i as int]);
            }
            return false;
        }
        i += 1;
    }
    proof {
        assert(a.cells@ =~= b.cells@);
        assert(a@ =~= b@);
    }
    true
}

} // verus!
