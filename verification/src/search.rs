use crate::grid::{
    cand_seq, cell_index, dist, dist_of, get_neighbors, is_check, is_positive_dist, is_uncheck,
    lemma_dist_in_grid, lemma_idx_bounds, lemma_idx_inj, open_cell, spec_dist, spec_neighbors,
    Elem, Grid, GridModel, Pos,
};
use std::collections::VecDeque;
use vstd::prelude::*;

verus! {

/// Number of expanded (`Check`) cells in a cell sequence.
pub open spec fn count_check(s: Seq<Elem>) -> int
    decreases s.len(),
{
    if s.len() == 0 {
        0
    } else {
        count_check(s.drop_last()) + if is_check(s.last()) {
            1int
        } else {
            0int
        }
    }
}

pub proof fn lemma_count_check_le_len(s: Seq<Elem>)
    ensures
        0 <= count_check(s) <= s.len(),
    decreases s.len(),
{
    if s.len() > 0 {
        lemma_count_check_le_len(s.drop_last());
    }
}

pub proof fn lemma_count_check_zero(s: Seq<Elem>)
    requires
        forall|i: int| 0 <= i < s.len() ==> !is_check(#[trigger] s[i]),
    ensures
        count_check(s) == 0,
    decreases s.len(),
{
    if s.len() > 0 {
        assert forall|i: int| 0 <= i < s.drop_last().len() implies !is_check(
            #[trigger] s.drop_last()[i],
        ) by {
            assert(s.drop_last()[i] == s[i]);
        }
        lemma_count_check_zero(s.drop_last());
    }
}

pub proof fn lemma_count_check_update(s: Seq<Elem>, i: int, v: Elem)
    requires
        0 <= i < s.len(),
    ensures
        count_check(s.update(i, v)) == count_check(s) - (if is_check(s[i]) {
            1int
        } else {
            0int
        }) + (if is_check(v) {
            1int
        } else {
            0int
        }),
    decreases s.len(),
{
    let t = s.update(i, v);
    if i == s.len() - 1 {
        assert(t.drop_last() =~= s.drop_last());
    } else {
        assert(t.drop_last() =~= s.drop_last().update(i, v));
        lemma_count_check_update(s.drop_last(), i, v);
    }
}

/// How a search may change a grid: the frame (dimensions, start, end) is
/// kept, and a cell changes only by discovery or expansion — an undiscovered
/// open cell or the goal cell acquires a positive tentative distance, may
/// later be expanded, and the goal cell is finally re-marked `End`.
pub open spec fn evolves(init: GridModel, g: GridModel) -> bool {
    &&& g.width == init.width
    &&& g.height == init.height
    &&& g.start == init.start
    &&& g.end == init.end
    &&& g.cells.len() == init.cells.len()
    &&& forall|i: int|
        0 <= i < g.cells.len() ==> (#[trigger] g.cells[i] == init.cells[i] || ((init.cells[i]
            == Elem::Uncheck(0u32) || init.cells[i] == Elem::End) && (is_positive_dist(g.cells[i])
            || (i == init.idx(init.end) && g.cells[i] == Elem::End))))
}

/// What holds of one frontier member mid-search: it is in bounds, and it is
/// either the start or a discovered, not yet expanded cell.
pub open spec fn member_ok(init: GridModel, g: GridModel, p: Pos) -> bool {
    &&& init.in_bounds(p)
    &&& 0 <= init.idx(p) < g.cells.len()
    &&& (p == init.start || (is_uncheck(g.cells[init.idx(p)]) && dist_of(g.cells[init.idx(p)])
        >= 1))
}

/// A walk on the grid `g`: at least one position, every position in bounds
/// and not a wall, and consecutive positions axis-aligned neighbors.
pub open spec fn is_path(g: GridModel, p: Seq<Pos>) -> bool {
    &&& p.len() >= 1
    &&& forall|i: int|
        0 <= i < p.len() ==> g.in_bounds(#[trigger] p[i]) && g.cells[g.idx(p[i])] != Elem::Wall
    &&& forall|i: int| 0 <= i < p.len() - 1 ==> spec_dist(#[trigger] p[i], p[i + 1]) == 1
}

/// A walk of exactly `n` moves exists on `g` from `a` to `b`.
pub open spec fn connects(g: GridModel, a: Pos, b: Pos, n: int) -> bool {
    exists|p: Seq<Pos>| is_path(g, p) && p.len() == n + 1 && p[0] == a && p.last() == b
}

/// Some walk on `g` leads from the start to `b`.
pub open spec fn reaches(g: GridModel, b: Pos) -> bool {
    exists|n: int| connects(g, g.start, b, n)
}

/// The empty walk: a non-wall cell is connected to itself in 0 moves.
pub proof fn lemma_connects_base(g: GridModel, a: Pos)
    requires
        g.in_bounds(a),
        g.cells[g.idx(a)] != Elem::Wall,
    ensures
        connects(g, a, a, 0),
{
    let p = seq![a];
    assert(p[0] == a && p.last() == a);
    assert(is_path(g, p));
}

/// A walk extends by one move onto an adjacent non-wall cell.
pub proof fn lemma_connects_step(g: GridModel, a: Pos, b: Pos, c: Pos, n: int)
    requires
        connects(g, a, b, n),
        g.in_bounds(c),
        g.cells[g.idx(c)] != Elem::Wall,
        spec_dist(b, c) == 1,
    ensures
        connects(g, a, c, n + 1),
{
    let p = choose|p: Seq<Pos>|
        is_path(g, p) && p.len() == n + 1 && p[0] == a && p.last() == b;
    let q = p.push(c);
    assert forall|i: int| 0 <= i < q.len() implies g.in_bounds(#[trigger] q[i]) && g.cells[g.idx(
        q[i],
    )] != Elem::Wall by {
        if i < p.len() {
            assert(q[i] == p[i]);
        } else {
            assert(q[i] == c);
        }
    }
    assert forall|i: int| 0 <= i < q.len() - 1 implies spec_dist(#[trigger] q[i], q[i + 1])
        == 1 by {
        if i < p.len() - 1 {
            assert(q[i] == p[i]);
            assert(q[i + 1] == p[i + 1]);
        } else {
            assert(q[i] == p.last());
            assert(q[i + 1] == c);
        }
    }
    assert(is_path(g, q));
    assert(q.len() == n + 2 && q[0] == a && q.last() == c);
}

/// A cell a search would still discover and queue: undiscovered open space,
/// or the goal marker.
pub open spec fn discoverable(c: Elem) -> bool {
    c == Elem::Uncheck(0u32) || c == Elem::End
}

/// A position the search has fully expanded: its cell is `Check`, or it is
/// the start and the start has already been popped off the frontier.
pub open spec fn processed(init: GridModel, g: GridModel, f: Seq<Pos>, p: Pos) -> bool {
    is_check(g.cells[init.idx(p)]) || (p == init.start && !f.contains(init.start))
}

/// Expansion closure: every in-bounds non-wall neighbor of a processed cell
/// has been seen — it is no longer discoverable.
pub open spec fn closure(init: GridModel, g: GridModel, f: Seq<Pos>) -> bool {
    forall|p: Pos, q: Pos|
        #![trigger g.cells[init.idx(p)], g.cells[init.idx(q)]]
        init.in_bounds(p) && 0 <= init.idx(p) < g.cells.len() && init.in_bounds(q) && 0
            <= init.idx(q) < g.cells.len() && processed(init, g, f, p) && init.cells[init.idx(q)]
            != Elem::Wall && spec_dist(p, q) == 1 ==> !discoverable(g.cells[init.idx(q)])
}

/// Expansion closure while the cell `cur` is being expanded: its neighbors
/// from index `k` on may still await their turn.
pub open spec fn closure_except(
    init: GridModel,
    g: GridModel,
    f: Seq<Pos>,
    cur: Pos,
    nbrs: Seq<Pos>,
    k: int,
) -> bool {
    forall|p: Pos, q: Pos|
        #![trigger g.cells[init.idx(p)], g.cells[init.idx(q)]]
        init.in_bounds(p) && 0 <= init.idx(p) < g.cells.len() && init.in_bounds(q) && 0
            <= init.idx(q) < g.cells.len() && processed(init, g, f, p) && init.cells[init.idx(q)]
            != Elem::Wall && spec_dist(p, q) == 1 ==> (!discoverable(g.cells[init.idx(q)]) || (p
            == cur && exists|j: int| k <= j < nbrs.len() && nbrs[j] == q))
}

/// Every discovered, not yet expanded cell still sits in the frontier.
pub open spec fn labeled_queued(init: GridModel, g: GridModel, f: Seq<Pos>) -> bool {
    forall|p: Pos|
        init.in_bounds(p) && 0 <= init.idx(p) < g.cells.len() && is_uncheck(
            #[trigger] g.cells[init.idx(p)],
        ) && dist_of(g.cells[init.idx(p)]) >= 1 ==> f.contains(p)
}

/// The neighbor list is complete: every in-bounds open cell one move away
/// from `p` appears in `spec_neighbors(g, p)`.
pub proof fn lemma_neighbors_complete(g: GridModel, p: Pos, q: Pos)
    requires
        g.in_bounds(p),
        g.in_bounds(q),
        spec_dist(p, q) == 1,
        open_cell(g.cells[g.idx(q)]),
    ensures
        spec_neighbors(g, p).contains(q),
{
    let e1 = if p.x + 1 < g.width {
        cand_seq(g, Pos { x: (p.x + 1) as usize, y: p.y })
    } else {
        Seq::<Pos>::empty()
    };
    let e2 = if p.x >= 1 {
        cand_seq(g, Pos { x: (p.x - 1) as usize, y: p.y })
    } else {
        Seq::<Pos>::empty()
    };
    let e3 = if p.y + 1 < g.height {
        cand_seq(g, Pos { x: p.x, y: (p.y + 1) as usize })
    } else {
        Seq::<Pos>::empty()
    };
    let e4 = if p.y >= 1 {
        cand_seq(g, Pos { x: p.x, y: (p.y - 1) as usize })
    } else {
        Seq::<Pos>::empty()
    };
    let s = spec_neighbors(g, p);
    assert(s == e1 + e2 + e3 + e4);
    if q.x == p.x + 1 && q.y == p.y {
        assert(e1 == seq![q]);
        assert(s[0] == q);
    } else if p.x >= 1 && q.x == p.x - 1 && q.y == p.y {
        assert(e2 == seq![q]);
        assert(s[e1.len() as int] == q);
    } else if q.x == p.x && q.y == p.y + 1 {
        assert(e3 == seq![q]);
        assert(s[(e1.len() + e2.len()) as int] == q);
    } else {
        assert(p.y >= 1 && q.x == p.x && q.y == p.y - 1);
        assert(e4 == seq![q]);
        assert(s[(e1.len() + e2.len() + e3.len()) as int] == q);
    }
}

/// When the frontier is exhausted, every walk that leaves the start stays on
/// expanded cells, and in particular never arrives at the goal.
pub proof fn lemma_path_stays_processed(init: GridModel, g: GridModel, p: Seq<Pos>)
    requires
        init.fresh(),
        init.start != init.end,
        evolves(init, g),
        g.dims_ok(),
        closure(init, g, Seq::<Pos>::empty()),
        labeled_queued(init, g, Seq::<Pos>::empty()),
        g.cells[init.idx(init.start)] == Elem::Start,
        g.cells[init.idx(init.end)] == Elem::End,
        is_path(init, p),
        p[0] == init.start,
    ensures
        is_check(g.cells[init.idx(p.last())]) || p.last() == init.start,
        p.last() != init.end,
    decreases p.len(),
{
    lemma_idx_inj(init);
    lemma_idx_bounds(init, init.start);
    lemma_idx_bounds(init, init.end);
    lemma_idx_bounds(init, p.last());
    if p.len() == 1 {
        assert(p.last() == p[0]);
    } else {
        let p0 = p.drop_last();
        assert(is_path(init, p0)) by {
            assert(forall|i: int| 0 <= i < p0.len() ==> #[trigger] p0[i] == p[i]);
        }
        assert(p0[0] == p[0]);
        lemma_path_stays_processed(init, g, p0);
        let b = p0.last();
        let q = p.last();
        lemma_idx_bounds(init, b);
        assert(b == p[p.len() - 2] && q == p[p.len() - 1]);
        assert(spec_dist(b, q) == 1);
        assert(processed(init, g, Seq::<Pos>::empty(), b));
        assert(!discoverable(g.cells[init.idx(q)]));
        assert(g.cells[init.idx(q)] != Elem::Wall) by {
            assert(init.cells[init.idx(q)] != Elem::Wall);
        }
        assert(!(is_uncheck(g.cells[init.idx(q)]) && dist_of(g.cells[init.idx(q)]) >= 1)) by {
            if is_uncheck(g.cells[init.idx(q)]) && dist_of(g.cells[init.idx(q)]) >= 1 {
                assert(Seq::<Pos>::empty().contains(q));
            }
        }
        if g.cells[init.idx(q)] == Elem::Start {
            assert(g.cells[init.idx(q)] == init.cells[init.idx(q)]);
            assert(init.idx(q) == init.idx(init.start));
            assert(q == init.start);
        } else {
            assert(is_check(g.cells[init.idx(q)]));
        }
        if q == init.end {
            assert(g.cells[init.idx(q)] == Elem::End);
            assert(false);
        }
    }
}

/// The position whose row-major index is `i`.
pub open spec fn pos_at(init: GridModel, i: int) -> Pos {
    Pos { x: (i % init.width) as usize, y: (i / init.width) as usize }
}

/// `pos_at` inverts the row-major index.
pub proof fn lemma_pos_at_idx(init: GridModel, i: int)
    requires
        init.dims_ok(),
        init.width <= usize::MAX,
        init.height <= usize::MAX,
        0 <= i < init.cells.len(),
    ensures
        init.in_bounds(pos_at(init, i)),
        init.idx(pos_at(init, i)) == i,
{
    let w = init.width;
    let h = init.height;
    vstd::arithmetic::div_mod::lemma_mod_bound(i, w);
    vstd::arithmetic::div_mod::lemma_fundamental_div_mod(i, w);
    if i / w >= h {
        assert(w * (i / w) >= w * h) by (nonlinear_arith)
            requires
                i / w >= h,
                w >= 1,
        ;
        assert(false);
    }
    if i / w < 0 {
        assert(w * (i / w) <= w * (-1)) by (nonlinear_arith)
            requires
                i / w <= -1,
                w >= 1,
        ;
        assert(false);
    }
}

/// Number of positions with row-major index below `i` that some walk from
/// the start reaches, the start itself not counted.
pub open spec fn count_reached(init: GridModel, i: int) -> int
    decreases i,
{
    if i <= 0 {
        0
    } else {
        count_reached(init, i - 1) + if pos_at(init, i - 1) != init.start && reaches(
            init,
            pos_at(init, i - 1),
        ) {
            1int
        } else {
            0int
        }
    }
}

proof fn lemma_count_check_reached(init: GridModel, s: Seq<Elem>, i: int)
    requires
        init.dims_ok(),
        s.len() == init.cells.len(),
        0 <= i <= s.len(),
        forall|j: int|
            0 <= j < s.len() ==> (is_check(#[trigger] s[j]) <==> (pos_at(init, j) != init.start
                && reaches(init, pos_at(init, j)))),
    ensures
        count_check(s.take(i)) == count_reached(init, i),
    decreases i,
{
    if i > 0 {
        lemma_count_check_reached(init, s, i - 1);
        assert(s.take(i).drop_last() =~= s.take(i - 1));
        assert(s.take(i).last() == s[i - 1]);
    } else {
        assert(s.take(0) =~= Seq::<Elem>::empty());
    }
}

/// Mid-search, the goal cell is either still marked `End` or the goal's
/// position sits in the frontier, about to restore the mark when popped.
pub open spec fn end_ok(init: GridModel, g: GridModel, f: Seq<Pos>) -> bool {
    g.cells[init.idx(init.end)] == Elem::End || f.contains(init.end)
}

/// The shared loop invariant of the three searches, over the initial grid,
/// the current grid, the frontier contents and the step counter.
pub open spec fn search_inv(init: GridModel, g: GridModel, f: Seq<Pos>, step: u32) -> bool {
    &&& init.fresh()
    &&& init.wf()
    &&& init.zero_dists()
    &&& init.start != init.end
    &&& init.cells.len() + 2 < u32::MAX
    &&& evolves(init, g)
    &&& g.dims_ok()
    &&& 0 <= init.idx(init.start) < g.cells.len()
    &&& 0 <= init.idx(init.end) < g.cells.len()
    &&& g.cells[init.idx(init.start)] == Elem::Start
    &&& forall|k: int| 0 <= k < f.len() ==> member_ok(init, g, #[trigger] f[k])
    &&& f.no_duplicates()
    &&& (f.contains(init.start) ==> f.len() == 1 && f[0] == init.start)
    &&& step as int == (if f.contains(init.start) {
        0int
    } else {
        1int
    }) + count_check(g.cells) - count_check(init.cells)
    &&& count_check(g.cells) >= count_check(init.cells)
    &&& forall|i: int| 0 <= i < g.cells.len() ==> dist_of(#[trigger] g.cells[i]) <= step as int
    &&& forall|p: Pos|
        init.in_bounds(p) && 0 <= init.idx(p) < g.cells.len() && is_positive_dist(
            #[trigger] g.cells[init.idx(p)],
        ) ==> dist_of(g.cells[init.idx(p)]) >= spec_dist(init.start, p)
    &&& forall|p: Pos|
        init.in_bounds(p) && 0 <= init.idx(p) < g.cells.len() && is_positive_dist(
            #[trigger] g.cells[init.idx(p)],
        ) ==> connects(init, init.start, p, dist_of(g.cells[init.idx(p)]))
}

/// What every search guarantees of its result `(steps, length)` and of the
/// searched grid: the grid changes only by discovery and expansion and keeps
/// its frame; a positive reported length is witnessed by an actual walk of
/// exactly that length from start to goal (so the shortest walk is no longer
/// than it, and it is at least the Manhattan distance); a zero length with
/// distinct start and goal holds exactly when no walk reaches the goal, and
/// then the expanded cells are exactly the reachable positions and the step
/// count is one more than their number; every recorded cell distance is
/// realized by a walk; and the goal cell is marked `End` on return.
pub open spec fn search_post(init: GridModel, g: GridModel, steps: u32, length: u32) -> bool {
    &&& evolves(init, g)
    &&& steps >= 1
    &&& length < steps
    &&& steps as int <= init.cells.len() + 2
    &&& (init.start == init.end ==> steps == 1 && length == 0 && g == init)
    &&& (length == 0 || spec_dist(init.start, init.end) <= length as int)
    &&& (length >= 1 ==> connects(init, init.start, init.end, length as int))
    &&& (init.start != init.end && length == 0 ==> !reaches(init, init.end))
    &&& (init.start != init.end && length == 0 ==> forall|p: Pos|
        init.in_bounds(p) && 0 <= init.idx(p) < g.cells.len() ==> (is_check(
            #[trigger] g.cells[init.idx(p)],
        ) <==> (p != init.start && reaches(init, p))))
    &&& (init.start != init.end && length == 0 ==> steps as int == 1 + count_reached(
        init,
        init.cells.len() as int,
    ))
    &&& forall|p: Pos|
        init.in_bounds(p) && 0 <= init.idx(p) < g.cells.len() && is_positive_dist(
            #[trigger] g.cells[init.idx(p)],
        ) ==> connects(init, init.start, p, dist_of(g.cells[init.idx(p)]))
    &&& g.cells[init.idx(init.end)] == Elem::End
    &&& (init.start != init.end ==> steps as int == 1 + count_check(g.cells) - count_check(
        init.cells,
    ) + (if length >= 1 {
        1int
    } else {
        0int
    }))
}

/// What holds when a search loop has ended, whether by exhausting the
/// frontier (length 0) or by dequeueing the goal.
pub open spec fn search_post_loop(init: GridModel, g: GridModel, step: u32, len: u32) -> bool {
    &&& evolves(init, g)
    &&& step >= 1
    &&& len < step
    &&& count_check(g.cells) >= count_check(init.cells)
    &&& step as int == 1 + count_check(g.cells) - count_check(init.cells) + (if len >= 1 {
        1int
    } else {
        0int
    })
    &&& (len == 0 || spec_dist(init.start, init.end) <= len as int)
    &&& (len >= 1 ==> connects(init, init.start, init.end, len as int))
    &&& forall|p: Pos|
        init.in_bounds(p) && 0 <= init.idx(p) < g.cells.len() && is_positive_dist(
            #[trigger] g.cells[init.idx(p)],
        ) ==> connects(init, init.start, p, dist_of(g.cells[init.idx(p)]))
    &&& g.cells[init.idx(init.end)] == Elem::End
}

/// When the start and the end coincide, every search — all three share the
/// `search_post` contract — reports a path length of 0 (and one step), and
/// leaves the grid untouched.
pub proof fn lemma_same_cell_zero_length(
    init: GridModel,
    g: GridModel,
    steps: u32,
    length: u32,
)
    requires
        search_post(init, g, steps, length),
        init.start == init.end,
    ensures
        length == 0,
        steps == 1,
        g == init,
{
}

proof fn lemma_drop_first_no_dup(f: Seq<Pos>)
    requires
        f.len() > 0,
        f.no_duplicates(),
    ensures
        f.subrange(1, f.len() as int).no_duplicates(),
        !f.subrange(1, f.len() as int).contains(f[0]),
{
    let t = f.subrange(1, f.len() as int);
    assert(forall|i: int| 0 <= i < t.len() ==> #[trigger] t[i] == f[i + 1]);
    if t.contains(f[0]) {
        let k = choose|k: int| 0 <= k < t.len() && t[k] == f[0];
        assert(f[k + 1] == f[0]);
        assert(false);
    }
}

proof fn lemma_push_keeps_inv(init: GridModel, g: GridModel, f: Seq<Pos>, step: u32, n: Pos)
    requires
        search_inv(init, g, f, step),
        init.in_bounds(n),
        0 <= init.idx(n) < g.cells.len(),
        is_uncheck(g.cells[init.idx(n)]),
        dist_of(g.cells[init.idx(n)]) >= 1,
        n != init.start,
        !f.contains(n),
        !f.contains(init.start),
    ensures
        search_inv(init, g, f.push(n), step),
{
    let f2 = f.push(n);
    assert(forall|k: int| 0 <= k < f.len() ==> f2[k] == f[k]);
    assert(f2[f.len() as int] == n);
    assert forall|i: int, j: int| 0 <= i < f2.len() && 0 <= j < f2.len() && i != j implies f2[i]
        != f2[j] by {
        if j == f.len() {
            assert(f2[i] == f[i]);
            if f[i] == n {
                assert(f.contains(n));
            }
        } else if i == f.len() {
            assert(f2[j] == f[j]);
            if f[j] == n {
                assert(f.contains(n));
            }
        }
    }
    if f2.contains(init.start) {
        let k = choose|k: int| 0 <= k < f2.len() && f2[k] == init.start;
        if k < f.len() {
            assert(f.contains(init.start));
        }
        assert(false);
    }
}

/// The tentative distance a cell contributes to the A* ordering key: its
/// `Uncheck` distance, or 0 for any other state.
pub open spec fn tentative(c: Elem) -> int {
    match c {
        Elem::Uncheck(n) => n as int,
        _ => 0,
    }
}

/// The A* ordering key of a position: tentative distance so far plus the
/// Manhattan heuristic to the goal.
pub open spec fn astar_key(g: GridModel, p: Pos) -> int {
    tentative(g.cells[g.idx(p)]) + spec_dist(p, g.end)
}

/// The greedy ordering key: the Manhattan heuristic to the goal alone.
pub open spec fn greedy_key(p: Pos, end: Pos) -> int {
    spec_dist(p, end)
}

/// Swaps two frontier entries in place.
fn swap_elems(v: &mut Vec<Pos>, a: usize, b: usize)
    requires
        a < b < old(v)@.len(),
    ensures
        final(v)@ == old(v)@.update(a as int, old(v)@[b as int]).update(
            b as int,
            old(v)@[a as int],
        ),
        final(v)@.to_multiset() == old(v)@.to_multiset(),
        final(v)@.len() == old(v)@.len(),
{
    let ghost s = v@;
    let pa = v[a];
    let pb = v[b];
    v[a] = pb;
    v[b] = pa;
    proof {
        broadcast use vstd::seq_lib::to_multiset_update;
        broadcast use vstd::seq_lib::group_to_multiset_ensures;
        broadcast use vstd::multiset::group_multiset_axioms;

        let s1 = s.update(a as int, s[b as int]);
        let s2 = s1.update(b as int, s[a as int]);
        assert(v@ == s2);
        assert(s.contains(s[a as int]));
        assert(s.to_multiset().count(s[a as int]) > 0);
        assert(s1.to_multiset() == s.to_multiset().insert(s[b as int]).remove(s[a as int]));
        assert(s1[b as int] == s[b as int]);
        assert(s1.contains(s1[b as int]));
        assert(s1.to_multiset().count(s[b as int]) > 0);
        assert(s2.to_multiset() == s1.to_multiset().insert(s[a as int]).remove(s[b as int]));
        assert(s2.to_multiset() =~= s.to_multiset());
    }
}

/// Removes every occurrence of `n`, keeping the order of the rest: the
/// frontier deduplication step of the A* re-expansion rule.
fn remove_pos(v: &mut Vec<Pos>, n: Pos)
    ensures
        !final(v)@.contains(n),
        forall|x: Pos| x != n ==> (final(v)@.contains(x) <==> old(v)@.contains(x)),
        forall|k: int| 0 <= k < final(v)@.len() ==> old(v)@.contains(#[trigger] final(v)@[k]),
        old(v)@.no_duplicates() ==> final(v)@.no_duplicates(),
{
    let ghost orig = v@;
    let mut res: Vec<Pos> = Vec::new();
    let mut i: usize = 0;
    while i < v.len()
        invariant
            i <= v@.len(),
            v@ == orig,
            !res@.contains(n),
            forall|x: Pos|
                x != n ==> (res@.contains(x) <==> orig.take(i as int).contains(x)),
            forall|k: int| 0 <= k < res@.len() ==> orig.take(i as int).contains(#[trigger] res@[k]),
            orig.no_duplicates() ==> res@.no_duplicates(),
        decreases v@.len() - i,
    {
        let ghost pre = res@;
        let e = v[i];
        proof {
            assert(orig.take(i as int + 1) =~= orig.take(i as int).push(orig[i as int]));
            assert forall|x: Pos| orig.take(i as int + 1).contains(x) implies (orig.take(
                i as int,
            ).contains(x) || x == orig[i as int]) by {
                let k = choose|k: int|
                    0 <= k < orig.take(i as int + 1).len() && #[trigger] orig.take(
                        i as int + 1,
                    )[k] == x;
                if k < i {
                    assert(orig.take(i as int)[k] == x);
                }
            }
            assert forall|x: Pos| orig.take(i as int).contains(x) implies orig.take(
                i as int + 1,
            ).contains(x) by {
                let k = choose|k: int| 0 <= k < i && orig.take(i as int)[k] == x;
                assert(orig.take(i as int + 1)[k] == x);
            }
            assert(orig.take(i as int + 1)[i as int] == orig[i as int]);
            assert(orig.take(i as int + 1).contains(orig[i as int]));
        }
        if e.x != n.x || e.y != n.y {
            proof {
                if orig.no_duplicates() {
                    if pre.contains(e) {
                        assert(orig.take(i as int).contains(e));
                        let k = choose|k: int| 0 <= k < i && orig.take(i as int)[k] == e;
                        assert(orig[k] == orig[i as int]);
                        assert(false);
                    }
                    assert forall|a: int, b: int|
                        0 <= a < pre.push(e).len() && 0 <= b < pre.push(e).len() && a
                            != b implies pre.push(e)[a] != pre.push(e)[b] by {
                        if a < pre.len() && b < pre.len() {
                        } else if b == pre.len() {
                            assert(pre.push(e)[a] == pre[a]);
                            if pre[a] == e {
                                assert(pre.contains(e));
                            }
                        } else {
                            assert(pre.push(e)[b] == pre[b]);
                            if pre[b] == e {
                                assert(pre.contains(e));
                            }
                        }
                    }
                }
            }
            res.push(e);
            proof {
                assert(forall|k: int| 0 <= k < pre.len() ==> res@[k] == pre[k]);
                assert(res@[pre.len() as int] == e);
                assert forall|x: Pos| x != n implies (res@.contains(x) <==> orig.take(
                    i as int + 1,
                ).contains(x)) by {
                    if res@.contains(x) {
                        let k = choose|k: int| 0 <= k < res@.len() && res@[k] == x;
                        if k < pre.len() {
                            assert(pre.contains(x));
                        }
                    }
                    if pre.contains(x) {
                        let k = choose|k: int| 0 <= k < pre.len() && pre[k] == x;
                        assert(res@[k] == x);
                    }
                }
            }
        } else {
            proof {
                assert(e == n);
                assert forall|x: Pos| x != n implies (res@.contains(x) <==> orig.take(
                    i as int + 1,
                ).contains(x)) by {}
            }
        }
        i += 1;
    }
    proof {
        assert(orig.take(orig.len() as int) =~= orig);
    }
    *v = res;
}

/// Stable insertion sort of the greedy frontier by descending Manhattan
/// distance to the goal: the position closest to the goal ends up last and
/// is popped next.
fn sort_by_goal(v: &mut Vec<Pos>, end: Pos)
    requires
        forall|k: int|
            0 <= k < old(v)@.len() ==> spec_dist(#[trigger] old(v)@[k], end) <= u32::MAX,
    ensures
        final(v)@.to_multiset() == old(v)@.to_multiset(),
        final(v)@.len() == old(v)@.len(),
        forall|x: Pos| final(v)@.contains(x) <==> old(v)@.contains(x),
        old(v)@.no_duplicates() ==> final(v)@.no_duplicates(),
        forall|a: int, b: int|
            0 <= a < b < final(v)@.len() ==> greedy_key(#[trigger] final(v)@[a], end) >= greedy_key(
                #[trigger] final(v)@[b],
                end,
            ),
{
    let ghost orig = v@;
    let mut i: usize = 1;
    while i < v.len()
        invariant
            i >= 1,
            v@.len() == orig.len(),
            v@.to_multiset() == orig.to_multiset(),
            forall|k: int| 0 <= k < v@.len() ==> spec_dist(#[trigger] v@[k], end) <= u32::MAX,
            forall|a: int, b: int|
                0 <= a < b < i && b < v@.len() ==> greedy_key(#[trigger] v@[a], end) >= greedy_key(
                    #[trigger] v@[b],
                    end,
                ),
        decreases v@.len() - i,
    {
        let mut j: usize = i;
        while j >= 1
            invariant_except_break
                j <= i < v@.len(),
                v@.len() == orig.len(),
                v@.to_multiset() == orig.to_multiset(),
                forall|k: int| 0 <= k < v@.len() ==> spec_dist(#[trigger] v@[k], end) <= u32::MAX,
                forall|a: int, b: int|
                    0 <= a < b <= i && b != j ==> greedy_key(#[trigger] v@[a], end) >= greedy_key(
                        #[trigger] v@[b],
                        end,
                    ),
                forall|b: int|
                    j < b <= i ==> greedy_key(v@[j as int], end) >= greedy_key(
                        #[trigger] v@[b],
                        end,
                    ),
            ensures
                v@.len() == orig.len(),
                v@.to_multiset() == orig.to_multiset(),
                forall|k: int| 0 <= k < v@.len() ==> spec_dist(#[trigger] v@[k], end) <= u32::MAX,
                forall|a: int, b: int|
                    0 <= a < b <= i ==> greedy_key(#[trigger] v@[a], end) >= greedy_key(
                        #[trigger] v@[b],
                        end,
                    ),
            decreases j,
        {
            let kl = dist(v[j - 1], end);
            let kr = dist(v[j], end);
            if kl >= kr {
                break ;
            }
            swap_elems(v, j - 1, j);
            j -= 1;
        }
        i += 1;
    }
    proof {
        broadcast use vstd::seq_lib::group_to_multiset_ensures;

        assert forall|x: Pos| v@.contains(x) <==> orig.contains(x) by {
            assert(v@.contains(x) <==> v@.to_multiset().count(x) > 0);
            assert(orig.contains(x) <==> orig.to_multiset().count(x) > 0);
        }
        if orig.no_duplicates() {
            orig.lemma_multiset_has_no_duplicates();
            v@.lemma_multiset_has_no_duplicates_conv();
        }
    }
}

/// The A* ordering key of a position, as executable code.
fn fscore(grid: &Grid, p: Pos) -> (r: u64)
    requires
        grid@.dims_ok(),
        grid@.in_bounds(p),
        spec_dist(p, grid@.end) <= u32::MAX,
    ensures
        r as int == astar_key(grid@, p),
{
    let i = cell_index(grid, p);
    let t: u32 = match grid.cells[i] {
        Elem::Uncheck(n) => n,
        _ => 0,
    };
    t as u64 + dist(p, grid.end) as u64
}

/// Stable insertion sort of the A* frontier by descending `g + h` key: the
/// position with the least key ends up last and is popped next.
fn sort_by_fscore(v: &mut Vec<Pos>, grid: &Grid)
    requires
        grid@.dims_ok(),
        forall|k: int| 0 <= k < old(v)@.len() ==> grid@.in_bounds(#[trigger] old(v)@[k]),
        forall|k: int|
            0 <= k < old(v)@.len() ==> spec_dist(#[trigger] old(v)@[k], grid@.end) <= u32::MAX,
    ensures
        final(v)@.to_multiset() == old(v)@.to_multiset(),
        final(v)@.len() == old(v)@.len(),
        forall|x: Pos| final(v)@.contains(x) <==> old(v)@.contains(x),
        old(v)@.no_duplicates() ==> final(v)@.no_duplicates(),
        forall|a: int, b: int|
            0 <= a < b < final(v)@.len() ==> astar_key(grid@, #[trigger] final(v)@[a]) >= astar_key(
                grid@,
                #[trigger] final(v)@[b],
            ),
{
    let ghost orig = v@;
    let mut i: usize = 1;
    while i < v.len()
        invariant
            i >= 1,
            grid@.dims_ok(),
            v@.len() == orig.len(),
            v@.to_multiset() == orig.to_multiset(),
            forall|k: int| 0 <= k < v@.len() ==> grid@.in_bounds(#[trigger] v@[k]),
            forall|k: int|
                0 <= k < v@.len() ==> spec_dist(#[trigger] v@[k], grid@.end) <= u32::MAX,
            forall|a: int, b: int|
                0 <= a < b < i && b < v@.len() ==> astar_key(grid@, #[trigger] v@[a]) >= astar_key(
                    grid@,
                    #[trigger] v@[b],
                ),
        decreases v@.len() - i,
    {
        let mut j: usize = i;
        while j >= 1
            invariant_except_break
                j <= i < v@.len(),
                grid@.dims_ok(),
                v@.len() == orig.len(),
                v@.to_multiset() == orig.to_multiset(),
                forall|k: int| 0 <= k < v@.len() ==> grid@.in_bounds(#[trigger] v@[k]),
                forall|k: int|
                    0 <= k < v@.len() ==> spec_dist(#[trigger] v@[k], grid@.end) <= u32::MAX,
                forall|a: int, b: int|
                    0 <= a < b <= i && b != j ==> astar_key(grid@, #[trigger] v@[a]) >= astar_key(
                        grid@,
                        #[trigger] v@[b],
                    ),
                forall|b: int|
                    j < b <= i ==> astar_key(grid@, v@[j as int]) >= astar_key(
                        grid@,
                        #[trigger] v@[b],
                    ),
            ensures
                v@.len() == orig.len(),
                v@.to_multiset() == orig.to_multiset(),
                forall|k: int| 0 <= k < v@.len() ==> grid@.in_bounds(#[trigger] v@[k]),
                forall|k: int|
                    0 <= k < v@.len() ==> spec_dist(#[trigger] v@[k], grid@.end) <= u32::MAX,
                forall|a: int, b: int|
                    0 <= a < b <= i ==> astar_key(grid@, #[trigger] v@[a]) >= astar_key(
                        grid@,
                        #[trigger] v@[b],
                    ),
            decreases j,
        {
            let kl = fscore(grid, v[j - 1]);
            let kr = fscore(grid, v[j]);
            if kl >= kr {
                break ;
            }
            swap_elems(v, j - 1, j);
            j -= 1;
        }
        i += 1;
    }
    proof {
        broadcast use vstd::seq_lib::group_to_multiset_ensures;

        assert forall|x: Pos| v@.contains(x) <==> orig.contains(x) by {
            assert(v@.contains(x) <==> v@.to_multiset().count(x) > 0);
            assert(orig.contains(x) <==> orig.to_multiset().count(x) > 0);
        }
        if orig.no_duplicates() {
            orig.lemma_multiset_has_no_duplicates();
            v@.lemma_multiset_has_no_duplicates_conv();
        }
    }
}

proof fn lemma_drop_last_no_dup(f: Seq<Pos>)
    requires
        f.len() > 0,
        f.no_duplicates(),
    ensures
        f.drop_last().no_duplicates(),
        !f.drop_last().contains(f.last()),
{
    let t = f.drop_last();
    assert(forall|i: int| 0 <= i < t.len() ==> #[trigger] t[i] == f[i]);
    if t.contains(f.last()) {
        let k = choose|k: int| 0 <= k < t.len() && t[k] == f.last();
        assert(f[k] == f[f.len() - 1]);
        assert(false);
    }
}

/// Breadth-first search: a FIFO frontier seeded with the start. Reports the
/// number of expansion steps and the discovered path length to the goal
/// (0 when the goal is the start or is unreachable).
#[verifier::rlimit(80)]
pub fn breath(grid: &mut Grid) -> (r: (u32, u32))
    requires
        old(grid)@.fresh(),
        old(grid)@.cells.len() + 2 < u32::MAX,
    ensures
        search_post(old(grid)@, final(grid)@, r.0, r.1),
{
    let ghost init = grid@;
    if grid.start == grid.end {
        return (1, 0);
    }
    let mut step: u32 = 0;
    let mut len: u32 = 0;
    let mut queue: VecDeque<Pos> = VecDeque::new();

    queue.push_back(grid.start);
    proof {
        assert(init.zero_dists()) by {
            assert forall|i: int| 0 <= i < init.cells.len() implies dist_of(
                #[trigger] init.cells[i],
            ) == 0 by {}
        }
        lemma_idx_bounds(init, init.start);
        lemma_idx_bounds(init, init.end);
        assert(queue@ =~= seq![init.start]);
        assert(queue@[0] == init.start);
        assert(queue@.contains(init.start));
        assert forall|p: Pos, q: Pos|
            #![trigger grid@.cells[init.idx(p)], grid@.cells[init.idx(q)]]
            init.in_bounds(p) && 0 <= init.idx(p) < grid@.cells.len() && init.in_bounds(q) && 0
                <= init.idx(q) < grid@.cells.len() && processed(init, grid@, queue@, p)
                && init.cells[init.idx(q)] != Elem::Wall && spec_dist(p, q)
                == 1 implies !discoverable(grid@.cells[init.idx(q)]) by {
            assert(init.cells[init.idx(p)] == grid@.cells[init.idx(p)]);
            if is_check(grid@.cells[init.idx(p)]) {
                assert(false);
            } else {
                assert(queue@.contains(init.start));
                assert(false);
            }
        }
        assert(closure(init, grid@, queue@));
        assert forall|p: Pos|
            init.in_bounds(p) && 0 <= init.idx(p) < grid@.cells.len() && is_uncheck(
                #[trigger] grid@.cells[init.idx(p)],
            ) && dist_of(grid@.cells[init.idx(p)]) >= 1 implies queue@.contains(p) by {
            assert(dist_of(grid@.cells[init.idx(p)]) == 0);
        }
        assert(labeled_queued(init, grid@, queue@));
    }

    while queue.len() > 0
        invariant_except_break
            search_inv(init, grid@, queue@, step),
            end_ok(init, grid@, queue@),
            closure(init, grid@, queue@),
            labeled_queued(init, grid@, queue@),
            len == 0,
        ensures
            search_post_loop(init, grid@, step, len),
            len == 0 ==> queue@.len() == 0 && closure(init, grid@, queue@) && labeled_queued(
                init,
                grid@,
                queue@,
            ) && grid@.cells[init.idx(init.start)] == Elem::Start && grid@.dims_ok(),
        decreases 2 + init.cells.len() - step,
    {
        proof {
            lemma_count_check_le_len(grid@.cells);
            lemma_count_check_le_len(init.cells);
        }
        let ghost gh = grid@;
        let ghost fb = queue@;
        step = step + 1;
        let current = queue.pop_front().unwrap();
        proof {
            lemma_drop_first_no_dup(fb);
            assert(fb.contains(init.start) ==> current == init.start);
            if current != init.start && queue@.contains(init.start) {
                let k = choose|k: int| 0 <= k < queue@.len() && queue@[k] == init.start;
                assert(fb[k + 1] == init.start);
                assert(fb.contains(init.start));
                assert(false);
            }
            if current != init.end && fb.contains(init.end) {
                let k = choose|k: int| 0 <= k < fb.len() && fb[k] == init.end;
                assert(queue@[k - 1] == init.end);
                assert(queue@.contains(init.end));
            }
            assert(member_ok(init, grid@, current));
        }
        let ci = cell_index(grid, current);

        if current == grid.end {
            proof {
                lemma_count_check_update(grid@.cells, ci as int, Elem::End);
            }
            match grid.cells[ci] {
                Elem::Uncheck(n) => {
                    len = n;
                },
                _ => {},
            }
            grid.cells[ci] = Elem::End;
            break ;
        }
        match grid.cells[ci] {
            Elem::Uncheck(n) => {
                proof {
                    lemma_count_check_update(grid@.cells, ci as int, Elem::Check(n));
                    lemma_idx_inj(init);
                }
                grid.cells[ci] = Elem::Check(n);
            },
            _ => {},
        }
        let ghost cur_cell = grid@.cells[ci as int];

        let nbrs = get_neighbors(&current, grid);
        proof {
            lemma_idx_inj(init);
            assert forall|p: Pos|
                init.in_bounds(p) && 0 <= init.idx(p) < grid@.cells.len() && is_uncheck(
                    #[trigger] grid@.cells[init.idx(p)],
                ) && dist_of(grid@.cells[init.idx(p)]) >= 1 implies queue@.contains(p) by {
                if init.idx(p) == ci as int {
                    assert(false);
                } else {
                    assert(is_uncheck(gh.cells[init.idx(p)]) && dist_of(gh.cells[init.idx(p)])
                        >= 1);
                    assert(fb.contains(p));
                    let m = choose|m: int| 0 <= m < fb.len() && fb[m] == p;
                    if p == current {
                        assert(init.idx(p) == ci as int);
                        assert(false);
                    }
                    assert(m >= 1);
                    assert(queue@[m - 1] == p);
                    assert(queue@.contains(p));
                }
            }
            assert(labeled_queued(init, grid@, queue@));
            assert forall|p: Pos, q: Pos|
                #![trigger grid@.cells[init.idx(p)], grid@.cells[init.idx(q)]]
                init.in_bounds(p) && 0 <= init.idx(p) < grid@.cells.len() && init.in_bounds(q)
                    && 0 <= init.idx(q) < grid@.cells.len() && processed(init, grid@, queue@, p)
                    && init.cells[init.idx(q)] != Elem::Wall && spec_dist(p, q)
                    == 1 implies (!discoverable(grid@.cells[init.idx(q)]) || (p
                == current && exists|j: int|
                0 <= j < nbrs@.len() && nbrs@[j] == q)) by {
                let pc = #[trigger] grid@.cells[init.idx(p)];
                if discoverable(grid@.cells[init.idx(q)]) {
                    if p == current {
                        assert(grid@.idx(q) == init.idx(q));
                        assert(open_cell(grid@.cells[grid@.idx(q)]));
                        assert(grid@.in_bounds(current) && grid@.in_bounds(q));
                        lemma_neighbors_complete(grid@, current, q);
                        assert(spec_neighbors(grid@, current).contains(q));
                        assert(nbrs@.contains(q));
                    } else {
                        assert(processed(init, gh, fb, p)) by {
                            if is_check(grid@.cells[init.idx(p)]) {
                                if init.idx(p) == ci as int {
                                    assert(p == current);
                                    assert(false);
                                }
                            } else {
                                if fb.contains(init.start) {
                                    assert(current == init.start);
                                    assert(false);
                                }
                            }
                        }
                        assert(!discoverable(gh.cells[init.idx(q)]));
                        if init.idx(q) == ci as int {
                            assert(!discoverable(grid@.cells[init.idx(q)]));
                        }
                        assert(false);
                    }
                }
            }
            assert(closure_except(init, grid@, queue@, current, nbrs@, 0));
        }
        let mut k: usize = 0;
        while k < nbrs.len()
            invariant
                search_inv(init, grid@, queue@, step),
                end_ok(init, grid@, queue@),
                closure_except(init, grid@, queue@, current, nbrs@, k as int),
                labeled_queued(init, grid@, queue@),
                !queue@.contains(init.start),
                k <= nbrs.len(),
                grid@.cells[ci as int] == cur_cell,
                ci as int == init.idx(current),
                (ci as int) < grid@.cells.len(),
                init.in_bounds(current),
                cur_cell == Elem::Start || (is_check(cur_cell) && 1 <= dist_of(cur_cell) < step),
                cur_cell == Elem::Start ==> current == init.start,
                forall|i: int|
                    0 <= i < nbrs@.len() ==> init.in_bounds(#[trigger] nbrs@[i]) && spec_dist(
                        current,
                        nbrs@[i],
                    ) == 1,
            decreases nbrs.len() - k,
        {
            let n = nbrs[k];
            let ni = cell_index(grid, n);
            let discover = match grid.cells[ni] {
                Elem::Uncheck(d) => d == 0,
                Elem::End => true,
                _ => false,
            };
            if discover {
                proof {
                    lemma_count_check_le_len(grid@.cells);
                    lemma_count_check_le_len(init.cells);
                }
                let d = match grid.cells[ci] {
                    Elem::Check(cc) => cc + 1,
                    _ => 1,
                };
                proof {
                    lemma_count_check_update(grid@.cells, ni as int, Elem::Uncheck(d));
                    lemma_idx_inj(init);
                    assert(spec_dist(init.start, n) <= spec_dist(init.start, current) + spec_dist(
                        current,
                        n,
                    ));
                    assert(init.cells[init.idx(n)] != Elem::Wall);
                    if cur_cell == Elem::Start {
                        lemma_connects_base(init, init.start);
                        lemma_connects_step(init, init.start, init.start, n, 0);
                    } else {
                        lemma_connects_step(init, init.start, current, n, dist_of(cur_cell));
                    }
                    assert(connects(init, init.start, n, d as int));
                    assert forall|j: int| 0 <= j < queue@.len() implies #[trigger] queue@[j]
                        != n by {
                        assert(member_ok(init, grid@, queue@[j]));
                    }
                    if queue@.contains(n) {
                        let j = choose|j: int| 0 <= j < queue@.len() && queue@[j] == n;
                        assert(false);
                    }
                }
                let ghost g0 = grid@;
                let ghost q0 = queue@;
                grid.cells[ni] = Elem::Uncheck(d);
                proof {
                    assert(ni as int == init.idx(n));
                    lemma_push_keeps_inv(init, grid@, queue@, step, n);
                    if n != init.end && queue@.contains(init.end) {
                        let k = choose|k: int| 0 <= k < queue@.len() && queue@[k] == init.end;
                        assert(queue@.push(n)[k] == init.end);
                    }
                    assert(queue@.push(n)[queue@.len() as int] == n);
                }
                queue.push_back(n);
                proof {
                    assert forall|p: Pos, q: Pos|
                        #![trigger grid@.cells[init.idx(p)], grid@.cells[init.idx(q)]]
                        init.in_bounds(p) && 0 <= init.idx(p) < grid@.cells.len()
                            && init.in_bounds(q) && 0 <= init.idx(q) < grid@.cells.len()
                            && processed(init, grid@, queue@, p) && init.cells[init.idx(q)]
                            != Elem::Wall && spec_dist(p, q) == 1 implies (!discoverable(grid@.cells[init.idx(q)]) || (p == current && exists|j: int|
                        k + 1 <= j < nbrs@.len() && nbrs@[j] == q)) by {
                        let pc = #[trigger] grid@.cells[init.idx(p)];
                        if discoverable(grid@.cells[init.idx(q)]) {
                            assert(init.idx(q) != ni as int);
                            assert(processed(init, g0, q0, p)) by {
                                if is_check(grid@.cells[init.idx(p)]) && init.idx(p)
                                    == ni as int {
                                    assert(false);
                                }
                                if p == init.start && q0.contains(init.start) {
                                    let m = choose|m: int|
                                        0 <= m < q0.len() && q0[m] == init.start;
                                    assert(queue@[m] == init.start);
                                    assert(false);
                                }
                            }
                            assert(discoverable(g0.cells[init.idx(q)]));
                            assert(!discoverable(g0.cells[init.idx(q)]) || (p == current
                                && exists|j: int| k <= j < nbrs@.len() && nbrs@[j] == q));
                            let j = choose|j: int| k <= j < nbrs@.len() && nbrs@[j] == q;
                            if j == k {
                                assert(q == n);
                                assert(false);
                            }
                        }
                    }
                    assert(closure_except(init, grid@, queue@, current, nbrs@, k + 1));
                    assert forall|p: Pos|
                        init.in_bounds(p) && 0 <= init.idx(p) < grid@.cells.len() && is_uncheck(
                            #[trigger] grid@.cells[init.idx(p)],
                        ) && dist_of(grid@.cells[init.idx(p)]) >= 1 implies queue@.contains(
                        p,
                    ) by {
                        if init.idx(p) == ni as int {
                            assert(p == n);
                            assert(queue@[q0.len() as int] == n);
                        } else {
                            assert(q0.contains(p));
                            let m = choose|m: int| 0 <= m < q0.len() && q0[m] == p;
                            assert(queue@[m] == p);
                        }
                    }
                    assert(labeled_queued(init, grid@, queue@));
                }
            } else {
                proof {
                    assert(ni as int == init.idx(n));
                    assert(!discoverable(grid@.cells[init.idx(n)]));
                    assert forall|p: Pos, q: Pos|
                        #![trigger grid@.cells[init.idx(p)], grid@.cells[init.idx(q)]]
                        init.in_bounds(p) && 0 <= init.idx(p) < grid@.cells.len()
                            && init.in_bounds(q) && 0 <= init.idx(q) < grid@.cells.len()
                            && processed(init, grid@, queue@, p) && init.cells[init.idx(q)]
                            != Elem::Wall && spec_dist(p, q) == 1 implies (!discoverable(grid@.cells[init.idx(q)]) || (p == current && exists|j: int|
                        k + 1 <= j < nbrs@.len() && nbrs@[j] == q)) by {
                        let pc = #[trigger] grid@.cells[init.idx(p)];
                        if discoverable(grid@.cells[init.idx(q)]) {
                            assert(!discoverable(grid@.cells[init.idx(q)]) || (p == current
                                && exists|j: int| k <= j < nbrs@.len() && nbrs@[j] == q));
                            let j = choose|j: int| k <= j < nbrs@.len() && nbrs@[j] == q;
                            if j == k {
                                assert(q == n);
                                assert(false);
                            }
                        }
                    }
                    assert(closure_except(init, grid@, queue@, current, nbrs@, k + 1));
                }
            }
            k = k + 1;
        }
        proof {
            lemma_count_check_le_len(grid@.cells);
            assert forall|p: Pos, q: Pos|
                #![trigger grid@.cells[init.idx(p)], grid@.cells[init.idx(q)]]
                init.in_bounds(p) && 0 <= init.idx(p) < grid@.cells.len() && init.in_bounds(q)
                    && 0 <= init.idx(q) < grid@.cells.len() && processed(init, grid@, queue@, p)
                    && init.cells[init.idx(q)] != Elem::Wall && spec_dist(p, q)
                    == 1 implies !discoverable(grid@.cells[init.idx(q)]) by {
                let pc = #[trigger] grid@.cells[init.idx(p)];
                if discoverable(grid@.cells[init.idx(q)]) {
                    assert(!discoverable(grid@.cells[init.idx(q)]) || (p == current && exists|
                        j: int,
                    |
                        k <= j < nbrs@.len() && nbrs@[j] == q));
                    let j = choose|j: int| k <= j < nbrs@.len() && nbrs@[j] == q;
                    assert(false);
                }
            }
            assert(closure(init, grid@, queue@));
        }
    }
    proof {
        lemma_count_check_le_len(grid@.cells);
        lemma_count_check_le_len(init.cells);
        if len == 0 && reaches(init, init.end) {
            let kk = choose|kk: int| connects(init, init.start, init.end, kk);
            let pth = choose|pp: Seq<Pos>|
                is_path(init, pp) && pp.len() == kk + 1 && pp[0] == init.start && pp.last()
                    == init.end;
            assert(queue@ =~= Seq::<Pos>::empty());
            assert(closure(init, grid@, Seq::<Pos>::empty()));
            assert(labeled_queued(init, grid@, Seq::<Pos>::empty()));
            lemma_path_stays_processed(init, grid@, pth);
            assert(false);
        }
        if len == 0 {
            assert(queue@ =~= Seq::<Pos>::empty());
            assert(closure(init, grid@, Seq::<Pos>::empty()));
            assert(labeled_queued(init, grid@, Seq::<Pos>::empty()));
        }
        if len == 0 {
            assert forall|p: Pos|
                init.in_bounds(p) && 0 <= init.idx(p) < grid@.cells.len() implies (is_check(
                #[trigger] grid@.cells[init.idx(p)],
            ) <==> (p != init.start && reaches(init, p))) by {
                if is_check(grid@.cells[init.idx(p)]) {
                    assert(grid@.cells[init.idx(p)] != init.cells[init.idx(p)]);
                    assert(is_positive_dist(grid@.cells[init.idx(p)]));
                    assert(connects(init, init.start, p, dist_of(grid@.cells[init.idx(p)])));
                    assert(reaches(init, p));
                    assert(p != init.start);
                }
                if p != init.start && reaches(init, p) {
                    let kk = choose|kk: int| connects(init, init.start, p, kk);
                    let pth = choose|pp: Seq<Pos>|
                        is_path(init, pp) && pp.len() == kk + 1 && pp[0] == init.start
                            && pp.last() == p;
                    lemma_path_stays_processed(init, grid@, pth);
                    assert(is_check(grid@.cells[init.idx(p)]));
                }
            }
            assert forall|j: int|
                0 <= j < grid@.cells.len() implies (is_check(#[trigger] grid@.cells[j]) <==> (
            pos_at(init, j) != init.start && reaches(init, pos_at(init, j)))) by {
                assert(init.width <= usize::MAX && init.height <= usize::MAX);
                lemma_pos_at_idx(init, j);
                let p = pos_at(init, j);
                assert(init.idx(p) == j);
                assert(is_check(grid@.cells[init.idx(p)]) <==> (p != init.start && reaches(
                    init,
                    p,
                )));
            }
            lemma_count_check_reached(init, grid@.cells, grid@.cells.len() as int);
            assert(grid@.cells.take(grid@.cells.len() as int) =~= grid@.cells);
            assert(count_check(grid@.cells) == count_reached(init, init.cells.len() as int));
            assert forall|i: int| 0 <= i < init.cells.len() implies !is_check(
                #[trigger] init.cells[i],
            ) by {}
            lemma_count_check_zero(init.cells);
        }
    }
    (step, len)
}

/// Greedy best-first search: the frontier is fully re-sorted before every
/// pop by descending distance to the goal, so the position closest to the
/// goal is expanded next. Fast, but not guaranteed optimal.
#[verifier::rlimit(80)]
pub fn heuristic(grid: &mut Grid) -> (r: (u32, u32))
    requires
        old(grid)@.fresh(),
        old(grid)@.cells.len() + 2 < u32::MAX,
    ensures
        search_post(old(grid)@, final(grid)@, r.0, r.1),
{
    let ghost init = grid@;
    if grid.start == grid.end {
        return (1, 0);
    }
    let mut step: u32 = 0;
    let mut len: u32 = 0;
    let mut vec: Vec<Pos> = Vec::new();

    vec.push(grid.start);
    proof {
        assert(init.zero_dists()) by {
            assert forall|i: int| 0 <= i < init.cells.len() implies dist_of(
                #[trigger] init.cells[i],
            ) == 0 by {}
        }
        lemma_idx_bounds(init, init.start);
        lemma_idx_bounds(init, init.end);
        assert(vec@ =~= seq![init.start]);
        assert(vec@[0] == init.start);
        assert(vec@.contains(init.start));
        assert forall|p: Pos, q: Pos|
            #![trigger grid@.cells[init.idx(p)], grid@.cells[init.idx(q)]]
            init.in_bounds(p) && 0 <= init.idx(p) < grid@.cells.len() && init.in_bounds(q) && 0
                <= init.idx(q) < grid@.cells.len() && processed(init, grid@, vec@, p)
                && init.cells[init.idx(q)] != Elem::Wall && spec_dist(p, q)
                == 1 implies !discoverable(grid@.cells[init.idx(q)]) by {
            assert(init.cells[init.idx(p)] == grid@.cells[init.idx(p)]);
            if is_check(grid@.cells[init.idx(p)]) {
                assert(false);
            } else {
                assert(vec@.contains(init.start));
                assert(false);
            }
        }
        assert(closure(init, grid@, vec@));
        assert forall|p: Pos|
            init.in_bounds(p) && 0 <= init.idx(p) < grid@.cells.len() && is_uncheck(
                #[trigger] grid@.cells[init.idx(p)],
            ) && dist_of(grid@.cells[init.idx(p)]) >= 1 implies vec@.contains(p) by {
            assert(dist_of(grid@.cells[init.idx(p)]) == 0);
        }
        assert(labeled_queued(init, grid@, vec@));
    }

    while vec.len() > 0
        invariant_except_break
            search_inv(init, grid@, vec@, step),
            end_ok(init, grid@, vec@),
            closure(init, grid@, vec@),
            labeled_queued(init, grid@, vec@),
            len == 0,
        ensures
            search_post_loop(init, grid@, step, len),
            len == 0 ==> vec@.len() == 0 && closure(init, grid@, vec@) && labeled_queued(
                init,
                grid@,
                vec@,
            ) && grid@.cells[init.idx(init.start)] == Elem::Start && grid@.dims_ok(),
        decreases 2 + init.cells.len() - step,
    {
        let ghost gh0 = grid@;
        proof {
            lemma_count_check_le_len(grid@.cells);
            lemma_count_check_le_len(init.cells);
            assert forall|k: int| 0 <= k < vec@.len() implies spec_dist(#[trigger] vec@[k], init.end)
                <= u32::MAX by {
                assert(member_ok(init, grid@, vec@[k]));
                lemma_dist_in_grid(init, vec@[k], init.end);
            }
        }
        step = step + 1;
        let ghost before_sort = vec@;
        sort_by_goal(&mut vec, grid.end);
        proof {
            assert forall|k: int| 0 <= k < vec@.len() implies member_ok(
                init,
                grid@,
                #[trigger] vec@[k],
            ) by {
                assert(vec@.contains(vec@[k]));
                assert(before_sort.contains(vec@[k]));
                let j = choose|j: int| 0 <= j < before_sort.len() && before_sort[j] == vec@[k];
                assert(member_ok(init, grid@, before_sort[j]));
            }
            if vec@.contains(init.start) {
                assert(before_sort.contains(init.start));
                assert(vec@.len() == 1);
                let k = choose|k: int| 0 <= k < vec@.len() && vec@[k] == init.start;
                assert(vec@[0] == init.start);
            }
            assert forall|p: Pos, q: Pos|
                #![trigger grid@.cells[init.idx(p)], grid@.cells[init.idx(q)]]
                init.in_bounds(p) && 0 <= init.idx(p) < grid@.cells.len() && init.in_bounds(q)
                    && 0 <= init.idx(q) < grid@.cells.len() && processed(init, grid@, vec@, p)
                    && init.cells[init.idx(q)] != Elem::Wall && spec_dist(p, q)
                    == 1 implies !discoverable(grid@.cells[init.idx(q)]) by {
                assert(processed(init, gh0, before_sort, p)) by {
                    if p == init.start && before_sort.contains(init.start) {
                        assert(vec@.contains(init.start));
                    }
                }
            }
            assert(closure(init, grid@, vec@));
            assert forall|p: Pos|
                init.in_bounds(p) && 0 <= init.idx(p) < grid@.cells.len() && is_uncheck(
                    #[trigger] grid@.cells[init.idx(p)],
                ) && dist_of(grid@.cells[init.idx(p)]) >= 1 implies vec@.contains(p) by {
                assert(before_sort.contains(p));
            }
            assert(labeled_queued(init, grid@, vec@));
        }
        let ghost fb = vec@;
        let current = vec.pop().unwrap();
        proof {
            assert(vec@ =~= fb.drop_last());
            lemma_drop_last_no_dup(fb);
            assert(fb.contains(init.start) ==> current == init.start);
            if current != init.start && vec@.contains(init.start) {
                let k = choose|k: int| 0 <= k < vec@.len() && vec@[k] == init.start;
                assert(fb[k] == init.start);
                assert(fb.contains(init.start));
                assert(false);
            }
            if current != init.end && fb.contains(init.end) {
                let k = choose|k: int| 0 <= k < fb.len() && fb[k] == init.end;
                assert(k < fb.len() - 1);
                assert(vec@[k] == init.end);
                assert(vec@.contains(init.end));
            }
            assert(fb.contains(current));
            assert(member_ok(init, grid@, current));
        }
        let ci = cell_index(grid, current);

        if current == grid.end {
            proof {
                lemma_count_check_update(grid@.cells, ci as int, Elem::End);
            }
            match grid.cells[ci] {
                Elem::Uncheck(n) => {
                    len = n;
                },
                _ => {},
            }
            grid.cells[ci] = Elem::End;
            break ;
        }
        match grid.cells[ci] {
            Elem::Uncheck(n) => {
                proof {
                    lemma_count_check_update(grid@.cells, ci as int, Elem::Check(n));
                    lemma_idx_inj(init);
                }
                grid.cells[ci] = Elem::Check(n);
            },
            _ => {},
        }
        let ghost cur_cell = grid@.cells[ci as int];

        let nbrs = get_neighbors(&current, grid);
        proof {
            lemma_idx_inj(init);
            assert forall|p: Pos|
                init.in_bounds(p) && 0 <= init.idx(p) < grid@.cells.len() && is_uncheck(
                    #[trigger] grid@.cells[init.idx(p)],
                ) && dist_of(grid@.cells[init.idx(p)]) >= 1 implies vec@.contains(p) by {
                if init.idx(p) == ci as int {
                    assert(false);
                } else {
                    assert(is_uncheck(gh0.cells[init.idx(p)]) && dist_of(gh0.cells[init.idx(p)])
                        >= 1);
                    assert(fb.contains(p));
                    let m = choose|m: int| 0 <= m < fb.len() && fb[m] == p;
                    if p == current {
                        assert(init.idx(p) == ci as int);
                        assert(false);
                    }
                    assert(m < fb.len() - 1);
                    assert(vec@[m] == p);
                    assert(vec@.contains(p));
                }
            }
            assert(labeled_queued(init, grid@, vec@));
            assert forall|p: Pos, q: Pos|
                #![trigger grid@.cells[init.idx(p)], grid@.cells[init.idx(q)]]
                init.in_bounds(p) && 0 <= init.idx(p) < grid@.cells.len() && init.in_bounds(q)
                    && 0 <= init.idx(q) < grid@.cells.len() && processed(init, grid@, vec@, p)
                    && init.cells[init.idx(q)] != Elem::Wall && spec_dist(p, q)
                    == 1 implies (!discoverable(grid@.cells[init.idx(q)]) || (p == current
                && exists|j: int| 0 <= j < nbrs@.len() && nbrs@[j] == q)) by {
                let pc = grid@.cells[init.idx(p)];
                if discoverable(grid@.cells[init.idx(q)]) {
                    if p == current {
                        assert(grid@.idx(q) == init.idx(q));
                        assert(open_cell(grid@.cells[grid@.idx(q)]));
                        assert(grid@.in_bounds(current) && grid@.in_bounds(q));
                        lemma_neighbors_complete(grid@, current, q);
                        assert(spec_neighbors(grid@, current).contains(q));
                        assert(nbrs@.contains(q));
                    } else {
                        assert(processed(init, gh0, fb, p)) by {
                            if is_check(grid@.cells[init.idx(p)]) {
                                if init.idx(p) == ci as int {
                                    assert(p == current);
                                    assert(false);
                                }
                            } else {
                                if fb.contains(init.start) {
                                    assert(current == init.start);
                                    assert(false);
                                }
                            }
                        }
                        assert(!discoverable(gh0.cells[init.idx(q)]));
                        if init.idx(q) == ci as int {
                            assert(!discoverable(grid@.cells[init.idx(q)]));
                        }
                        assert(false);
                    }
                }
            }
            assert(closure_except(init, grid@, vec@, current, nbrs@, 0));
        }
        let mut k: usize = 0;
        while k < nbrs.len()
            invariant
                search_inv(init, grid@, vec@, step),
                end_ok(init, grid@, vec@),
                closure_except(init, grid@, vec@, current, nbrs@, k as int),
                labeled_queued(init, grid@, vec@),
                !vec@.contains(init.start),
                k <= nbrs.len(),
                grid@.cells[ci as int] == cur_cell,
                ci as int == init.idx(current),
                (ci as int) < grid@.cells.len(),
                init.in_bounds(current),
                cur_cell == Elem::Start || (is_check(cur_cell) && 1 <= dist_of(cur_cell) < step),
                cur_cell == Elem::Start ==> current == init.start,
                forall|i: int|
                    0 <= i < nbrs@.len() ==> init.in_bounds(#[trigger] nbrs@[i]) && spec_dist(
                        current,
                        nbrs@[i],
                    ) == 1,
            decreases nbrs.len() - k,
        {
            let n = nbrs[k];
            let ni = cell_index(grid, n);
            let discover = match grid.cells[ni] {
                Elem::Uncheck(d) => d == 0,
                Elem::End => true,
                _ => false,
            };
            if discover {
                proof {
                    lemma_count_check_le_len(grid@.cells);
                    lemma_count_check_le_len(init.cells);
                }
                let d = match grid.cells[ci] {
                    Elem::Check(cc) => cc + 1,
                    _ => 1,
                };
                proof {
                    lemma_count_check_update(grid@.cells, ni as int, Elem::Uncheck(d));
                    lemma_idx_inj(init);
                    assert(spec_dist(init.start, n) <= spec_dist(init.start, current) + spec_dist(
                        current,
                        n,
                    ));
                    assert(init.cells[init.idx(n)] != Elem::Wall);
                    if cur_cell == Elem::Start {
                        lemma_connects_base(init, init.start);
                        lemma_connects_step(init, init.start, init.start, n, 0);
                    } else {
                        lemma_connects_step(init, init.start, current, n, dist_of(cur_cell));
                    }
                    assert(connects(init, init.start, n, d as int));
                    assert forall|j: int| 0 <= j < vec@.len() implies #[trigger] vec@[j] != n by {
                        assert(member_ok(init, grid@, vec@[j]));
                    }
                    if vec@.contains(n) {
                        let j = choose|j: int| 0 <= j < vec@.len() && vec@[j] == n;
                        assert(false);
                    }
                }
                let ghost g0 = grid@;
                let ghost q0 = vec@;
                grid.cells[ni] = Elem::Uncheck(d);
                proof {
                    assert(ni as int == init.idx(n));
                    lemma_push_keeps_inv(init, grid@, vec@, step, n);
                    if n != init.end && vec@.contains(init.end) {
                        let k = choose|k: int| 0 <= k < vec@.len() && vec@[k] == init.end;
                        assert(vec@.push(n)[k] == init.end);
                    }
                    assert(vec@.push(n)[vec@.len() as int] == n);
                }
                vec.push(n);
                proof {
                    assert forall|p: Pos, q: Pos|
                        #![trigger grid@.cells[init.idx(p)], grid@.cells[init.idx(q)]]
                        init.in_bounds(p) && 0 <= init.idx(p) < grid@.cells.len()
                            && init.in_bounds(q) && 0 <= init.idx(q) < grid@.cells.len()
                            && processed(init, grid@, vec@, p) && init.cells[init.idx(q)]
                            != Elem::Wall && spec_dist(p, q) == 1 implies (!discoverable(
                        grid@.cells[init.idx(q)],
                    ) || (p == current && exists|j: int|
                        k + 1 <= j < nbrs@.len() && nbrs@[j] == q)) by {
                        let pc = grid@.cells[init.idx(p)];
                        if discoverable(grid@.cells[init.idx(q)]) {
                            assert(init.idx(q) != ni as int);
                            assert(processed(init, g0, q0, p)) by {
                                if is_check(grid@.cells[init.idx(p)]) && init.idx(p)
                                    == ni as int {
                                    assert(false);
                                }
                            }
                            assert(discoverable(g0.cells[init.idx(q)]));
                            assert(!discoverable(g0.cells[init.idx(q)]) || (p == current
                                && exists|j: int| k <= j < nbrs@.len() && nbrs@[j] == q));
                            let j = choose|j: int| k <= j < nbrs@.len() && nbrs@[j] == q;
                            if j == k {
                                assert(q == n);
                                assert(false);
                            }
                        }
                    }
                    assert(closure_except(init, grid@, vec@, current, nbrs@, k + 1));
                    assert forall|p: Pos|
                        init.in_bounds(p) && 0 <= init.idx(p) < grid@.cells.len() && is_uncheck(
                            #[trigger] grid@.cells[init.idx(p)],
                        ) && dist_of(grid@.cells[init.idx(p)]) >= 1 implies vec@.contains(p) by {
                        if init.idx(p) == ni as int {
                            assert(p == n);
                            assert(vec@.last() == n);
                        } else {
                            assert(q0.contains(p));
                            let m = choose|m: int| 0 <= m < q0.len() && q0[m] == p;
                            assert(vec@[m] == p);
                        }
                    }
                    assert(labeled_queued(init, grid@, vec@));
                }
            } else {
                proof {
                    assert(ni as int == init.idx(n));
                    assert(!discoverable(grid@.cells[init.idx(n)]));
                    assert forall|p: Pos, q: Pos|
                        #![trigger grid@.cells[init.idx(p)], grid@.cells[init.idx(q)]]
                        init.in_bounds(p) && 0 <= init.idx(p) < grid@.cells.len()
                            && init.in_bounds(q) && 0 <= init.idx(q) < grid@.cells.len()
                            && processed(init, grid@, vec@, p) && init.cells[init.idx(q)]
                            != Elem::Wall && spec_dist(p, q) == 1 implies (!discoverable(
                        grid@.cells[init.idx(q)],
                    ) || (p == current && exists|j: int|
                        k + 1 <= j < nbrs@.len() && nbrs@[j] == q)) by {
                        let pc = grid@.cells[init.idx(p)];
                        if discoverable(grid@.cells[init.idx(q)]) {
                            assert(!discoverable(grid@.cells[init.idx(q)]) || (p == current
                                && exists|j: int| k <= j < nbrs@.len() && nbrs@[j] == q));
                            let j = choose|j: int| k <= j < nbrs@.len() && nbrs@[j] == q;
                            if j == k {
                                assert(q == n);
                                assert(false);
                            }
                        }
                    }
                    assert(closure_except(init, grid@, vec@, current, nbrs@, k + 1));
                }
            }
            k = k + 1;
        }
        proof {
            lemma_count_check_le_len(grid@.cells);
            assert forall|p: Pos, q: Pos|
                #![trigger grid@.cells[init.idx(p)], grid@.cells[init.idx(q)]]
                init.in_bounds(p) && 0 <= init.idx(p) < grid@.cells.len() && init.in_bounds(q)
                    && 0 <= init.idx(q) < grid@.cells.len() && processed(init, grid@, vec@, p)
                    && init.cells[init.idx(q)] != Elem::Wall && spec_dist(p, q)
                    == 1 implies !discoverable(grid@.cells[init.idx(q)]) by {
                let pc = grid@.cells[init.idx(p)];
                if discoverable(grid@.cells[init.idx(q)]) {
                    assert(!discoverable(grid@.cells[init.idx(q)]) || (p == current && exists|
                        j: int,
                    |
                        k <= j < nbrs@.len() && nbrs@[j] == q));
                    let j = choose|j: int| k <= j < nbrs@.len() && nbrs@[j] == q;
                    assert(false);
                }
            }
            assert(closure(init, grid@, vec@));
        }
    }
    proof {
        lemma_count_check_le_len(grid@.cells);
        lemma_count_check_le_len(init.cells);
        if len == 0 && reaches(init, init.end) {
            let kk = choose|kk: int| connects(init, init.start, init.end, kk);
            let pth = choose|pp: Seq<Pos>|
                is_path(init, pp) && pp.len() == kk + 1 && pp[0] == init.start && pp.last()
                    == init.end;
            assert(vec@ =~= Seq::<Pos>::empty());
            assert(closure(init, grid@, Seq::<Pos>::empty()));
            assert(labeled_queued(init, grid@, Seq::<Pos>::empty()));
            lemma_path_stays_processed(init, grid@, pth);
            assert(false);
        }
        if len == 0 {
            assert(vec@ =~= Seq::<Pos>::empty());
            assert(closure(init, grid@, Seq::<Pos>::empty()));
            assert(labeled_queued(init, grid@, Seq::<Pos>::empty()));
        }
        if len == 0 {
            assert forall|p: Pos|
                init.in_bounds(p) && 0 <= init.idx(p) < grid@.cells.len() implies (is_check(
                #[trigger] grid@.cells[init.idx(p)],
            ) <==> (p != init.start && reaches(init, p))) by {
                if is_check(grid@.cells[init.idx(p)]) {
                    assert(grid@.cells[init.idx(p)] != init.cells[init.idx(p)]);
                    assert(is_positive_dist(grid@.cells[init.idx(p)]));
                    assert(connects(init, init.start, p, dist_of(grid@.cells[init.idx(p)])));
                    assert(reaches(init, p));
                    assert(p != init.start);
                }
                if p != init.start && reaches(init, p) {
                    let kk = choose|kk: int| connects(init, init.start, p, kk);
                    let pth = choose|pp: Seq<Pos>|
                        is_path(init, pp) && pp.len() == kk + 1 && pp[0] == init.start
                            && pp.last() == p;
                    lemma_path_stays_processed(init, grid@, pth);
                    assert(is_check(grid@.cells[init.idx(p)]));
                }
            }
            assert forall|j: int|
                0 <= j < grid@.cells.len() implies (is_check(#[trigger] grid@.cells[j]) <==> (
            pos_at(init, j) != init.start && reaches(init, pos_at(init, j)))) by {
                assert(init.width <= usize::MAX && init.height <= usize::MAX);
                lemma_pos_at_idx(init, j);
                let p = pos_at(init, j);
                assert(init.idx(p) == j);
                assert(is_check(grid@.cells[init.idx(p)]) <==> (p != init.start && reaches(
                    init,
                    p,
                )));
            }
            lemma_count_check_reached(init, grid@.cells, grid@.cells.len() as int);
            assert(grid@.cells.take(grid@.cells.len() as int) =~= grid@.cells);
            assert(count_check(grid@.cells) == count_reached(init, init.cells.len() as int));
            assert forall|i: int| 0 <= i < init.cells.len() implies !is_check(
                #[trigger] init.cells[i],
            ) by {}
            lemma_count_check_zero(init.cells);
        }
    }
    (step, len)
}

/// A* search: the frontier is fully re-sorted before every pop by descending
/// `g + h` (tentative distance plus Manhattan heuristic), and a discovered
/// neighbor is re-marked and re-queued whenever the new route to it is at
/// least as good as its recorded distance, its stale frontier entry removed,
/// so the frontier never holds the same position twice.
#[verifier::rlimit(80)]
pub fn astar(grid: &mut Grid) -> (r: (u32, u32))
    requires
        old(grid)@.fresh(),
        old(grid)@.cells.len() + 2 < u32::MAX,
    ensures
        search_post(old(grid)@, final(grid)@, r.0, r.1),
{
    let ghost init = grid@;
    if grid.start == grid.end {
        return (1, 0);
    }
    let mut step: u32 = 0;
    let mut len: u32 = 0;
    let mut vec: Vec<Pos> = Vec::new();

    vec.push(grid.start);
    proof {
        assert(init.zero_dists()) by {
            assert forall|i: int| 0 <= i < init.cells.len() implies dist_of(
                #[trigger] init.cells[i],
            ) == 0 by {}
        }
        lemma_idx_bounds(init, init.start);
        lemma_idx_bounds(init, init.end);
        assert(vec@ =~= seq![init.start]);
        assert(vec@[0] == init.start);
        assert(vec@.contains(init.start));
        assert forall|p: Pos, q: Pos|
            #![trigger grid@.cells[init.idx(p)], grid@.cells[init.idx(q)]]
            init.in_bounds(p) && 0 <= init.idx(p) < grid@.cells.len() && init.in_bounds(q) && 0
                <= init.idx(q) < grid@.cells.len() && processed(init, grid@, vec@, p)
                && init.cells[init.idx(q)] != Elem::Wall && spec_dist(p, q)
                == 1 implies !discoverable(grid@.cells[init.idx(q)]) by {
            assert(init.cells[init.idx(p)] == grid@.cells[init.idx(p)]);
            if is_check(grid@.cells[init.idx(p)]) {
                assert(false);
            } else {
                assert(vec@.contains(init.start));
                assert(false);
            }
        }
        assert(closure(init, grid@, vec@));
        assert forall|p: Pos|
            init.in_bounds(p) && 0 <= init.idx(p) < grid@.cells.len() && is_uncheck(
                #[trigger] grid@.cells[init.idx(p)],
            ) && dist_of(grid@.cells[init.idx(p)]) >= 1 implies vec@.contains(p) by {
            assert(dist_of(grid@.cells[init.idx(p)]) == 0);
        }
        assert(labeled_queued(init, grid@, vec@));
    }

    while vec.len() > 0
        invariant_except_break
            search_inv(init, grid@, vec@, step),
            end_ok(init, grid@, vec@),
            closure(init, grid@, vec@),
            labeled_queued(init, grid@, vec@),
            len == 0,
        ensures
            search_post_loop(init, grid@, step, len),
            len == 0 ==> vec@.len() == 0 && closure(init, grid@, vec@) && labeled_queued(
                init,
                grid@,
                vec@,
            ) && grid@.cells[init.idx(init.start)] == Elem::Start && grid@.dims_ok(),
        decreases 2 + init.cells.len() - step,
    {
        let ghost gh0 = grid@;
        proof {
            lemma_count_check_le_len(grid@.cells);
            lemma_count_check_le_len(init.cells);
            assert forall|k: int| 0 <= k < vec@.len() implies grid@.in_bounds(#[trigger] vec@[k])
                && spec_dist(vec@[k], grid@.end) <= u32::MAX by {
                assert(member_ok(init, grid@, vec@[k]));
                lemma_dist_in_grid(init, vec@[k], init.end);
            }
        }
        step = step + 1;
        let ghost before_sort = vec@;
        sort_by_fscore(&mut vec, grid);
        proof {
            assert forall|k: int| 0 <= k < vec@.len() implies member_ok(
                init,
                grid@,
                #[trigger] vec@[k],
            ) by {
                assert(vec@.contains(vec@[k]));
                assert(before_sort.contains(vec@[k]));
                let j = choose|j: int| 0 <= j < before_sort.len() && before_sort[j] == vec@[k];
                assert(member_ok(init, grid@, before_sort[j]));
            }
            if vec@.contains(init.start) {
                assert(before_sort.contains(init.start));
                assert(vec@.len() == 1);
                let k = choose|k: int| 0 <= k < vec@.len() && vec@[k] == init.start;
                assert(vec@[0] == init.start);
            }
            assert forall|p: Pos, q: Pos|
                #![trigger grid@.cells[init.idx(p)], grid@.cells[init.idx(q)]]
                init.in_bounds(p) && 0 <= init.idx(p) < grid@.cells.len() && init.in_bounds(q)
                    && 0 <= init.idx(q) < grid@.cells.len() && processed(init, grid@, vec@, p)
                    && init.cells[init.idx(q)] != Elem::Wall && spec_dist(p, q)
                    == 1 implies !discoverable(grid@.cells[init.idx(q)]) by {
                assert(processed(init, gh0, before_sort, p)) by {
                    if p == init.start && before_sort.contains(init.start) {
                        assert(vec@.contains(init.start));
                    }
                }
            }
            assert(closure(init, grid@, vec@));
            assert forall|p: Pos|
                init.in_bounds(p) && 0 <= init.idx(p) < grid@.cells.len() && is_uncheck(
                    #[trigger] grid@.cells[init.idx(p)],
                ) && dist_of(grid@.cells[init.idx(p)]) >= 1 implies vec@.contains(p) by {
                assert(before_sort.contains(p));
            }
            assert(labeled_queued(init, grid@, vec@));
        }
        let ghost fb = vec@;
        let current = vec.pop().unwrap();
        proof {
            assert(vec@ =~= fb.drop_last());
            lemma_drop_last_no_dup(fb);
            assert(fb.contains(init.start) ==> current == init.start);
            if current != init.start && vec@.contains(init.start) {
                let k = choose|k: int| 0 <= k < vec@.len() && vec@[k] == init.start;
                assert(fb[k] == init.start);
                assert(fb.contains(init.start));
                assert(false);
            }
            if current != init.end && fb.contains(init.end) {
                let k = choose|k: int| 0 <= k < fb.len() && fb[k] == init.end;
                assert(k < fb.len() - 1);
                assert(vec@[k] == init.end);
                assert(vec@.contains(init.end));
            }
            assert(fb.contains(current));
            assert(member_ok(init, grid@, current));
        }
        let ci = cell_index(grid, current);

        if current == grid.end {
            proof {
                lemma_count_check_update(grid@.cells, ci as int, Elem::End);
            }
            match grid.cells[ci] {
                Elem::Uncheck(n) => {
                    len = n;
                },
                _ => {},
            }
            grid.cells[ci] = Elem::End;
            break ;
        }
        match grid.cells[ci] {
            Elem::Uncheck(n) => {
                proof {
                    lemma_count_check_update(grid@.cells, ci as int, Elem::Check(n));
                    lemma_idx_inj(init);
                }
                grid.cells[ci] = Elem::Check(n);
            },
            _ => {},
        }
        let ghost cur_cell = grid@.cells[ci as int];

        let nbrs = get_neighbors(&current, grid);
        proof {
            lemma_idx_inj(init);
            assert forall|p: Pos|
                init.in_bounds(p) && 0 <= init.idx(p) < grid@.cells.len() && is_uncheck(
                    #[trigger] grid@.cells[init.idx(p)],
                ) && dist_of(grid@.cells[init.idx(p)]) >= 1 implies vec@.contains(p) by {
                if init.idx(p) == ci as int {
                    assert(false);
                } else {
                    assert(is_uncheck(gh0.cells[init.idx(p)]) && dist_of(gh0.cells[init.idx(p)])
                        >= 1);
                    assert(fb.contains(p));
                    let m = choose|m: int| 0 <= m < fb.len() && fb[m] == p;
                    if p == current {
                        assert(init.idx(p) == ci as int);
                        assert(false);
                    }
                    assert(m < fb.len() - 1);
                    assert(vec@[m] == p);
                    assert(vec@.contains(p));
                }
            }
            assert(labeled_queued(init, grid@, vec@));
            assert forall|p: Pos, q: Pos|
                #![trigger grid@.cells[init.idx(p)], grid@.cells[init.idx(q)]]
                init.in_bounds(p) && 0 <= init.idx(p) < grid@.cells.len() && init.in_bounds(q)
                    && 0 <= init.idx(q) < grid@.cells.len() && processed(init, grid@, vec@, p)
                    && init.cells[init.idx(q)] != Elem::Wall && spec_dist(p, q)
                    == 1 implies (!discoverable(grid@.cells[init.idx(q)]) || (p == current
                && exists|j: int| 0 <= j < nbrs@.len() && nbrs@[j] == q)) by {
                let pc = grid@.cells[init.idx(p)];
                if discoverable(grid@.cells[init.idx(q)]) {
                    if p == current {
                        assert(grid@.idx(q) == init.idx(q));
                        assert(open_cell(grid@.cells[grid@.idx(q)]));
                        assert(grid@.in_bounds(current) && grid@.in_bounds(q));
                        lemma_neighbors_complete(grid@, current, q);
                        assert(spec_neighbors(grid@, current).contains(q));
                        assert(nbrs@.contains(q));
                    } else {
                        assert(processed(init, gh0, fb, p)) by {
                            if is_check(grid@.cells[init.idx(p)]) {
                                if init.idx(p) == ci as int {
                                    assert(p == current);
                                    assert(false);
                                }
                            } else {
                                if fb.contains(init.start) {
                                    assert(current == init.start);
                                    assert(false);
                                }
                            }
                        }
                        assert(!discoverable(gh0.cells[init.idx(q)]));
                        if init.idx(q) == ci as int {
                            assert(!discoverable(grid@.cells[init.idx(q)]));
                        }
                        assert(false);
                    }
                }
            }
            assert(closure_except(init, grid@, vec@, current, nbrs@, 0));
        }
        let mut k: usize = 0;
        while k < nbrs.len()
            invariant
                search_inv(init, grid@, vec@, step),
                end_ok(init, grid@, vec@),
                closure_except(init, grid@, vec@, current, nbrs@, k as int),
                labeled_queued(init, grid@, vec@),
                !vec@.contains(init.start),
                k <= nbrs.len(),
                grid@.cells[ci as int] == cur_cell,
                ci as int == init.idx(current),
                (ci as int) < grid@.cells.len(),
                init.in_bounds(current),
                cur_cell == Elem::Start || (is_check(cur_cell) && 1 <= dist_of(cur_cell) < step),
                cur_cell == Elem::Start ==> current == init.start,
                forall|i: int|
                    0 <= i < nbrs@.len() ==> init.in_bounds(#[trigger] nbrs@[i]) && spec_dist(
                        current,
                        nbrs@[i],
                    ) == 1,
            decreases nbrs.len() - k,
        {
            let n = nbrs[k];
            let ni = cell_index(grid, n);
            // Skip a neighbor only if it is closed to this search: a wall or
            // expanded cell, the goal-tagged cell, or a discovered cell whose
            // recorded distance is strictly better than the new one.
            let skip = match grid.cells[ni] {
                Elem::Uncheck(cn) => {
                    if cn == 0 {
                        false
                    } else {
                        match grid.cells[ci] {
                            Elem::Check(cc) => cn < cc + 1,
                            _ => true,
                        }
                    }
                },
                Elem::End => false,
                _ => true,
            };
            if !skip {
                proof {
                    lemma_count_check_le_len(grid@.cells);
                    lemma_count_check_le_len(init.cells);
                }
                let d = match grid.cells[ci] {
                    Elem::Check(cc) => cc + 1,
                    _ => 1,
                };
                proof {
                    lemma_count_check_update(grid@.cells, ni as int, Elem::Uncheck(d));
                    lemma_idx_inj(init);
                    assert(spec_dist(init.start, n) <= spec_dist(init.start, current) + spec_dist(
                        current,
                        n,
                    ));
                    assert(init.cells[init.idx(n)] != Elem::Wall);
                    if cur_cell == Elem::Start {
                        lemma_connects_base(init, init.start);
                        lemma_connects_step(init, init.start, init.start, n, 0);
                    } else {
                        lemma_connects_step(init, init.start, current, n, dist_of(cur_cell));
                    }
                    assert(connects(init, init.start, n, d as int));
                }
                let ghost g0 = grid@;
                let ghost q0 = vec@;
                grid.cells[ni] = Elem::Uncheck(d);
                let ghost before_remove = vec@;
                remove_pos(&mut vec, n);
                let ghost q1 = vec@;
                proof {
                    assert(ni as int == init.idx(n));
                    if n != init.end && vec@.contains(init.end) {
                        let k = choose|k: int| 0 <= k < vec@.len() && vec@[k] == init.end;
                        assert(vec@.push(n)[k] == init.end);
                    }
                    assert(vec@.push(n)[vec@.len() as int] == n);
                    assert forall|j: int| 0 <= j < vec@.len() implies member_ok(
                        init,
                        grid@,
                        #[trigger] vec@[j],
                    ) by {
                        assert(vec@.contains(vec@[j]));
                        assert(before_remove.contains(vec@[j]));
                        let m = choose|m: int|
                            0 <= m < before_remove.len() && before_remove[m] == vec@[j];
                        assert(member_ok(init, grid@, before_remove[m]));
                    }
                    assert(!vec@.contains(init.start));
                    assert(!vec@.contains(n));
                    lemma_push_keeps_inv(init, grid@, vec@, step, n);
                }
                vec.push(n);
                proof {
                    assert forall|p: Pos, q: Pos|
                        #![trigger grid@.cells[init.idx(p)], grid@.cells[init.idx(q)]]
                        init.in_bounds(p) && 0 <= init.idx(p) < grid@.cells.len()
                            && init.in_bounds(q) && 0 <= init.idx(q) < grid@.cells.len()
                            && processed(init, grid@, vec@, p) && init.cells[init.idx(q)]
                            != Elem::Wall && spec_dist(p, q) == 1 implies (!discoverable(
                        grid@.cells[init.idx(q)],
                    ) || (p == current && exists|j: int|
                        k + 1 <= j < nbrs@.len() && nbrs@[j] == q)) by {
                        let pc = grid@.cells[init.idx(p)];
                        if discoverable(grid@.cells[init.idx(q)]) {
                            assert(init.idx(q) != ni as int);
                            assert(processed(init, g0, q0, p)) by {
                                if is_check(grid@.cells[init.idx(p)]) && init.idx(p)
                                    == ni as int {
                                    assert(false);
                                }
                            }
                            assert(discoverable(g0.cells[init.idx(q)]));
                            assert(!discoverable(g0.cells[init.idx(q)]) || (p == current
                                && exists|j: int| k <= j < nbrs@.len() && nbrs@[j] == q));
                            let j = choose|j: int| k <= j < nbrs@.len() && nbrs@[j] == q;
                            if j == k {
                                assert(q == n);
                                assert(false);
                            }
                        }
                    }
                    assert(closure_except(init, grid@, vec@, current, nbrs@, k + 1));
                    assert forall|p: Pos|
                        init.in_bounds(p) && 0 <= init.idx(p) < grid@.cells.len() && is_uncheck(
                            #[trigger] grid@.cells[init.idx(p)],
                        ) && dist_of(grid@.cells[init.idx(p)]) >= 1 implies vec@.contains(p) by {
                        if init.idx(p) == ni as int {
                            assert(p == n);
                            assert(vec@.last() == n);
                        } else {
                            assert(p != n);
                            assert(is_uncheck(g0.cells[init.idx(p)]) && dist_of(
                                g0.cells[init.idx(p)],
                            ) >= 1);
                            assert(q0.contains(p));
                            assert(q1.contains(p));
                            let m = choose|m: int| 0 <= m < q1.len() && q1[m] == p;
                            assert(vec@[m] == p);
                        }
                    }
                    assert(labeled_queued(init, grid@, vec@));
                }
            } else {
                proof {
                    assert(ni as int == init.idx(n));
                    assert(!discoverable(grid@.cells[init.idx(n)]));
                    assert forall|p: Pos, q: Pos|
                        #![trigger grid@.cells[init.idx(p)], grid@.cells[init.idx(q)]]
                        init.in_bounds(p) && 0 <= init.idx(p) < grid@.cells.len()
                            && init.in_bounds(q) && 0 <= init.idx(q) < grid@.cells.len()
                            && processed(init, grid@, vec@, p) && init.cells[init.idx(q)]
                            != Elem::Wall && spec_dist(p, q) == 1 implies (!discoverable(
                        grid@.cells[init.idx(q)],
                    ) || (p == current && exists|j: int|
                        k + 1 <= j < nbrs@.len() && nbrs@[j] == q)) by {
                        let pc = grid@.cells[init.idx(p)];
                        if discoverable(grid@.cells[init.idx(q)]) {
                            assert(!discoverable(grid@.cells[init.idx(q)]) || (p == current
                                && exists|j: int| k <= j < nbrs@.len() && nbrs@[j] == q));
                            let j = choose|j: int| k <= j < nbrs@.len() && nbrs@[j] == q;
                            if j == k {
                                assert(q == n);
                                assert(false);
                            }
                        }
                    }
                    assert(closure_except(init, grid@, vec@, current, nbrs@, k + 1));
                }
            }
            k = k + 1;
        }
        proof {
            lemma_count_check_le_len(grid@.cells);
            assert forall|p: Pos, q: Pos|
                #![trigger grid@.cells[init.idx(p)], grid@.cells[init.idx(q)]]
                init.in_bounds(p) && 0 <= init.idx(p) < grid@.cells.len() && init.in_bounds(q)
                    && 0 <= init.idx(q) < grid@.cells.len() && processed(init, grid@, vec@, p)
                    && init.cells[init.idx(q)] != Elem::Wall && spec_dist(p, q)
                    == 1 implies !discoverable(grid@.cells[init.idx(q)]) by {
                let pc = grid@.cells[init.idx(p)];
                if discoverable(grid@.cells[init.idx(q)]) {
                    assert(!discoverable(grid@.cells[init.idx(q)]) || (p == current && exists|
                        j: int,
                    |
                        k <= j < nbrs@.len() && nbrs@[j] == q));
                    let j = choose|j: int| k <= j < nbrs@.len() && nbrs@[j] == q;
                    assert(false);
                }
            }
            assert(closure(init, grid@, vec@));
        }
    }
    proof {
        lemma_count_check_le_len(grid@.cells);
        lemma_count_check_le_len(init.cells);
        if len == 0 && reaches(init, init.end) {
            let kk = choose|kk: int| connects(init, init.start, init.end, kk);
            let pth = choose|pp: Seq<Pos>|
                is_path(init, pp) && pp.len() == kk + 1 && pp[0] == init.start && pp.last()
                    == init.end;
            assert(vec@ =~= Seq::<Pos>::empty());
            assert(closure(init, grid@, Seq::<Pos>::empty()));
            assert(labeled_queued(init, grid@, Seq::<Pos>::empty()));
            lemma_path_stays_processed(init, grid@, pth);
            assert(false);
        }
        if len == 0 {
            assert(vec@ =~= Seq::<Pos>::empty());
            assert(closure(init, grid@, Seq::<Pos>::empty()));
            assert(labeled_queued(init, grid@, Seq::<Pos>::empty()));
        }
        if len == 0 {
            assert forall|p: Pos|
                init.in_bounds(p) && 0 <= init.idx(p) < grid@.cells.len() implies (is_check(
                #[trigger] grid@.cells[init.idx(p)],
            ) <==> (p != init.start && reaches(init, p))) by {
                if is_check(grid@.cells[init.idx(p)]) {
                    assert(grid@.cells[init.idx(p)] != init.cells[init.idx(p)]);
                    assert(is_positive_dist(grid@.cells[init.idx(p)]));
                    assert(connects(init, init.start, p, dist_of(grid@.cells[init.idx(p)])));
                    assert(reaches(init, p));
                    assert(p != init.start);
                }
                if p != init.start && reaches(init, p) {
                    let kk = choose|kk: int| connects(init, init.start, p, kk);
                    let pth = choose|pp: Seq<Pos>|
                        is_path(init, pp) && pp.len() == kk + 1 && pp[0] == init.start
                            && pp.last() == p;
                    lemma_path_stays_processed(init, grid@, pth);
                    assert(is_check(grid@.cells[init.idx(p)]));
                }
            }
            assert forall|j: int|
                0 <= j < grid@.cells.len() implies (is_check(#[trigger] grid@.cells[j]) <==> (
            pos_at(init, j) != init.start && reaches(init, pos_at(init, j)))) by {
                assert(init.width <= usize::MAX && init.height <= usize::MAX);
                lemma_pos_at_idx(init, j);
                let p = pos_at(init, j);
                assert(init.idx(p) == j);
                assert(is_check(grid@.cells[init.idx(p)]) <==> (p != init.start && reaches(
                    init,
                    p,
                )));
            }
            lemma_count_check_reached(init, grid@.cells, grid@.cells.len() as int);
            assert(grid@.cells.take(grid@.cells.len() as int) =~= grid@.cells);
            assert(count_check(grid@.cells) == count_reached(init, init.cells.len() as int));
            assert forall|i: int| 0 <= i < init.cells.len() implies !is_check(
                #[trigger] init.cells[i],
            ) by {}
            lemma_count_check_zero(init.cells);
        }
    }
    (step, len)
}

} // verus!
