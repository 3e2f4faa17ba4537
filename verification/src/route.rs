//! Routes through a grid: what counts as one, what it costs, and what
//! follows for grids of particular shapes.

use crate::a_star::IsTraversable;
use crate::grid::{adjacent, gap, Grid2D};
use vstd::prelude::*;

verus! {

/// The sum of the row distance and the column distance between two cells.
pub open spec fn manhattan(a: (usize, usize), b: (usize, usize)) -> int {
    gap(a.0, b.0) + gap(a.1, b.1)
}

/// Whether `path` leads from `start` to `end` inside `grid`: it begins at
/// `start`, ends at `end`, stays in bounds, moves between touching cells
/// only, and enters traversable cells only. The cell it begins at is not
/// entered, so it need not be traversable.
pub open spec fn is_route<T: IsTraversable>(
    grid: &Grid2D<T>,
    start: (usize, usize),
    end: (usize, usize),
    path: Seq<(usize, usize)>,
) -> bool {
    &&& path.len() >= 1
    &&& path[0] == start
    &&& path[path.len() - 1] == end
    &&& forall|k: int| 0 <= k < path.len() ==> grid.in_bounds(#[trigger] path[k])
    &&& forall|k: int|
        1 <= k < path.len() ==> adjacent(path[k - 1], #[trigger] path[k]) && grid.cell(
            path[k],
        ).traversable()
}

/// Whether `a` and `b` neither coincide nor touch.
pub open spec fn apart(a: (usize, usize), b: (usize, usize)) -> bool {
    gap(a.0, b.0) >= 2 || gap(a.1, b.1) >= 2
}

/// Whether `path` never comes near a cell that it has left: cells that are
/// two or more steps apart on it neither coincide nor touch.
pub open spec fn is_taut(path: Seq<(usize, usize)>) -> bool {
    forall|k: int, j: int|
        0 <= k && k + 2 <= j < path.len() ==> apart(#[trigger] path[k], #[trigger] path[j])
}

/// The cost of walking `path`: the sum of the costs of its steps.
pub open spec fn route_cost(path: Seq<(usize, usize)>) -> int
    decreases path.len(),
{
    if path.len() <= 1 {
        0
    } else {
        route_cost(path.drop_last()) + manhattan(path[path.len() - 2], path[path.len() - 1])
    }
}

/// A route that is cut after one of its cells is a route to that cell.
pub proof fn lemma_route_prefix<T: IsTraversable>(
    grid: &Grid2D<T>,
    start: (usize, usize),
    end: (usize, usize),
    path: Seq<(usize, usize)>,
    k: int,
)
    requires
        is_route(grid, start, end, path),
        0 <= k < path.len(),
    ensures
        is_route(grid, start, path[k], path.take(k + 1)),
{
    let head = path.take(k + 1);
    assert forall|j: int| 0 <= j < head.len() implies grid.in_bounds(#[trigger] head[j]) by {
        assert(head[j] == path[j]);
    }
    assert forall|j: int| 1 <= j < head.len() implies adjacent(head[j - 1], #[trigger] head[j])
        && grid.cell(head[j]).traversable() by {
        assert(head[j] == path[j]);
        assert(head[j - 1] == path[j - 1]);
    }
}

/// No walk is cheaper than its first part followed by a direct line from
/// there to its last cell.
pub proof fn lemma_cost_split(path: Seq<(usize, usize)>, k: int)
    requires
        0 <= k < path.len(),
    ensures
        route_cost(path) >= route_cost(path.take(k + 1)) + manhattan(path[k], path[path.len() - 1]),
    decreases path.len(),
{
    if k == path.len() - 1 {
        assert(path.take(k + 1) == path);
    } else {
        let front = path.drop_last();
        lemma_cost_split(front, k);
        assert(front.take(k + 1) == path.take(k + 1));
    }
}

/// Every step of a route costs at least 1.
pub proof fn lemma_cost_counts_steps<T: IsTraversable>(
    grid: &Grid2D<T>,
    start: (usize, usize),
    end: (usize, usize),
    path: Seq<(usize, usize)>,
)
    requires
        is_route(grid, start, end, path),
    ensures
        route_cost(path) >= path.len() - 1,
    decreases path.len(),
{
    if path.len() > 1 {
        let k = path.len() - 2;
        lemma_route_prefix(grid, start, end, path, k);
        assert(path.take(k + 1) == path.drop_last());
        lemma_cost_counts_steps(grid, start, path[k], path.drop_last());
        assert(adjacent(path[k], path[k + 1]));
    }
}

/// The larger of the row distance and the column distance between two
/// cells: the least number of steps between them where nothing is blocked.
pub open spec fn chebyshev(a: (usize, usize), b: (usize, usize)) -> int {
    if gap(a.0, b.0) >= gap(a.1, b.1) {
        gap(a.0, b.0)
    } else {
        gap(a.1, b.1)
    }
}

/// No route is cheaper than the direct distance between its ends.
pub proof fn lemma_cost_at_least_distance<T: IsTraversable>(
    grid: &Grid2D<T>,
    start: (usize, usize),
    end: (usize, usize),
    path: Seq<(usize, usize)>,
)
    requires
        is_route(grid, start, end, path),
    ensures
        route_cost(path) >= manhattan(start, end),
{
    lemma_cost_split(path, 0);
    assert(route_cost(path.take(1)) == 0);
}

/// No route has fewer steps than the larger of the row distance and the
/// column distance between its ends.
pub proof fn lemma_steps_at_least_chebyshev<T: IsTraversable>(
    grid: &Grid2D<T>,
    start: (usize, usize),
    end: (usize, usize),
    path: Seq<(usize, usize)>,
)
    requires
        is_route(grid, start, end, path),
    ensures
        path.len() - 1 >= chebyshev(start, end),
    decreases path.len(),
{
    if path.len() > 1 {
        let k = path.len() - 2;
        lemma_route_prefix(grid, start, end, path, k);
        lemma_steps_at_least_chebyshev(grid, start, path[k], path.take(k + 1));
        assert(adjacent(path[k], path[k + 1]));
    }
}

/// `x` moved by one towards `target`, or `x` itself where it is there.
pub open spec fn nearer(x: usize, target: usize) -> usize {
    if x < target {
        (x + 1) as usize
    } else if x > target {
        (x - 1) as usize
    } else {
        x
    }
}

/// The walk from `a` to `b` that moves diagonally as long as both the row and
/// the column differ, and straight after that.
pub open spec fn direct_walk(a: (usize, usize), b: (usize, usize)) -> Seq<(usize, usize)>
    decreases manhattan(a, b),
{
    if a == b {
        seq![a]
    } else {
        direct_walk(a, (nearer(b.0, a.0), nearer(b.1, a.1))).push(b)
    }
}

/// The direct walk between two cells of a grid without blocked cells on it
/// is a route that costs the direct distance and takes as few steps as any
/// route can.
pub proof fn lemma_direct_walk<T: IsTraversable>(
    grid: &Grid2D<T>,
    start: (usize, usize),
    end: (usize, usize),
)
    requires
        grid.in_bounds(start),
        grid.in_bounds(end),
        forall|c: (usize, usize)| #[trigger] grid.in_bounds(c) ==> grid.cell(c).traversable(),
    ensures
        is_route(grid, start, end, direct_walk(start, end)),
        route_cost(direct_walk(start, end)) == manhattan(start, end),
        direct_walk(start, end).len() - 1 == chebyshev(start, end),
    decreases manhattan(start, end),
{
    if start != end {
        let before = (nearer(end.0, start.0), nearer(end.1, start.1));
        lemma_direct_walk(grid, start, before);
        let front = direct_walk(start, before);
        let whole = direct_walk(start, end);
        assert(whole == front.push(end));
        assert(whole.drop_last() == front);
        assert forall|k: int| 0 <= k < whole.len() implies grid.in_bounds(#[trigger] whole[k]) by {
            if k < front.len() {
                assert(whole[k] == front[k]);
            }
        }
        assert forall|k: int| 1 <= k < whole.len() implies adjacent(
            whole[k - 1],
            #[trigger] whole[k],
        ) && grid.cell(whole[k]).traversable() by {
            if k < front.len() {
                assert(whole[k] == front[k]);
                assert(whole[k - 1] == front[k - 1]);
            }
        }
    }
}

/// In a grid without blocked cells there is a route between two cells
/// exactly when both lie inside the grid.
pub proof fn lemma_open_grid_connected<T: IsTraversable>(
    grid: &Grid2D<T>,
    start: (usize, usize),
    end: (usize, usize),
)
    requires
        forall|c: (usize, usize)| #[trigger] grid.in_bounds(c) ==> grid.cell(c).traversable(),
    ensures
        (exists|q: Seq<(usize, usize)>| is_route(grid, start, end, q)) <==> (grid.in_bounds(start)
            && grid.in_bounds(end)),
{
    if grid.in_bounds(start) && grid.in_bounds(end) {
        lemma_direct_walk(grid, start, end);
    }
    if exists|q: Seq<(usize, usize)>| is_route(grid, start, end, q) {
        let q = choose|q: Seq<(usize, usize)>| is_route(grid, start, end, q);
        assert(grid.in_bounds(q[0]));
        assert(grid.in_bounds(q[q.len() - 1]));
    }
}

/// In a grid without blocked cells a cheapest route costs the direct
/// distance between its ends, and the number of its steps lies between the
/// larger of the row and column distances and their sum.
pub proof fn lemma_open_grid_cheapest<T: IsTraversable>(
    grid: &Grid2D<T>,
    start: (usize, usize),
    end: (usize, usize),
    path: Seq<(usize, usize)>,
)
    requires
        forall|c: (usize, usize)| #[trigger] grid.in_bounds(c) ==> grid.cell(c).traversable(),
        is_route(grid, start, end, path),
        forall|q: Seq<(usize, usize)>| #[trigger]
            is_route(grid, start, end, q) ==> route_cost(path) <= route_cost(q),
    ensures
        route_cost(path) == manhattan(start, end),
        chebyshev(start, end) <= path.len() - 1 <= manhattan(start, end),
{
    assert(grid.in_bounds(path[0]));
    assert(grid.in_bounds(path[path.len() - 1]));
    lemma_direct_walk(grid, start, end);
    lemma_cost_at_least_distance(grid, start, end, path);
    lemma_cost_counts_steps(grid, start, end, path);
    lemma_steps_at_least_chebyshev(grid, start, end, path);
}

/// A taut route between two cells that coincide or touch is the one cell or
/// the one step.
pub proof fn lemma_taut_route_is_short<T: IsTraversable>(
    grid: &Grid2D<T>,
    start: (usize, usize),
    end: (usize, usize),
    path: Seq<(usize, usize)>,
)
    requires
        is_route(grid, start, end, path),
        is_taut(path),
        !apart(start, end),
    ensures
        start == end ==> path == seq![start],
        start != end ==> path == seq![start, end],
{
    if path.len() >= 3 {
        assert(apart(path[0], path[path.len() - 1]));
    }
    if path.len() == 2 {
        assert(adjacent(path[0], path[1]));
    }
}

/// Every cell of a route that begins at a traversable cell is traversable.
pub proof fn lemma_route_cells_traversable<T: IsTraversable>(
    grid: &Grid2D<T>,
    start: (usize, usize),
    end: (usize, usize),
    path: Seq<(usize, usize)>,
)
    requires
        is_route(grid, start, end, path),
        grid.cell(start).traversable(),
    ensures
        forall|k: int| 0 <= k < path.len() ==> grid.cell(#[trigger] path[k]).traversable(),
{
}

/// A cell whose neighbours are all blocked cannot be reached from any other
/// cell by way of a neighbour, so there is no route to it unless the route
/// begins next to it.
pub proof fn lemma_enclosed_end_unreachable<T: IsTraversable>(
    grid: &Grid2D<T>,
    start: (usize, usize),
    end: (usize, usize),
)
    requires
        start != end,
        forall|n: (usize, usize)|
            grid.in_bounds(n) && #[trigger] adjacent(n, end) ==> !grid.cell(n).traversable(),
        !(adjacent(start, end) && grid.cell(end).traversable()),
    ensures
        forall|q: Seq<(usize, usize)>| !#[trigger] is_route(grid, start, end, q),
{
    assert forall|q: Seq<(usize, usize)>| !#[trigger] is_route(grid, start, end, q) by {
        if is_route(grid, start, end, q) {
            let k = q.len() - 1;
            assert(k >= 1);
            assert(adjacent(q[k - 1], q[k]));
            assert(grid.in_bounds(q[k - 1]));
            if k - 1 >= 1 {
                assert(grid.cell(q[k - 1]).traversable());
            }
        }
    }
}

} // verus!
