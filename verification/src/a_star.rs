//! Best-first search for a cheapest route between two cells of a grid.
//!
//! Movement goes from a cell to any of the up to eight cells that touch it.
//! A step costs the sum of the row and column distances it covers, so a
//! straight step costs 1 and a diagonal step costs 2; the estimate of the
//! cost still ahead is measured the same way.

use crate::ext::Unfolding;
use crate::frontier::{first_min_index, lemma_first_min_index, Frontier};
use crate::grid::{adjacent, gap, lists, Grid2D};
use crate::route::{
    apart, is_route, is_taut, lemma_cost_split, lemma_route_prefix, lemma_taut_route_is_short,
    manhattan, route_cost,
};
use std::collections::HashSet;
use vstd::prelude::*;

verus! {

broadcast use vstd::std_specs::hash::group_hash_axioms;

/// Cells that can say whether movement may pass through them.
pub trait IsTraversable {
    /// Whether movement may pass through this cell.
    spec fn traversable(&self) -> bool;

    /// Whether movement may pass through this cell.
    fn is_traversable(&self) -> (b: bool)
        ensures
            b == self.traversable(),
    ;
}

/// A cell given as a small code: 1 blocks movement, every other code lets it
/// pass.
impl IsTraversable for u8 {
    open spec fn traversable(&self) -> bool {
        *self != 1
    }

    fn is_traversable(&self) -> (b: bool) {
        *self != 1
    }
}

/// One state of the search: a cell, what it cost to reach it, the estimate of
/// what is still ahead, and the node it was reached from.
struct Node {
    coords: (usize, usize),
    g_cost: u128,
    h_cost: u128,
    prev: Option<usize>,
}

impl Node {
    /// The estimated cost of a route through this node.
    fn f_cost(&self) -> (f: u128)
        requires
            self.g_cost + self.h_cost <= u128::MAX,
        ensures
            f == self.g_cost + self.h_cost,
    {
        self.g_cost + self.h_cost
    }
}

/// The number under which the set of expanded cells holds a cell.
spec fn key_of(c: (usize, usize)) -> u128 {
    (c.0 * 0x1_0000_0000_0000_0000 + c.1) as u128
}

/// Whether `keys` holds exactly the cells of `closed`.
spec fn holds_cells(keys: Set<u128>, closed: Set<(usize, usize)>) -> bool {
    forall|c: (usize, usize)| closed.contains(c) <==> keys.contains(#[trigger] key_of(c))
}

/// The number under which the set of expanded cells holds `c`.
fn cell_key(c: (usize, usize)) -> (key: u128)
    ensures
        key == key_of(c),
{
    let row: u128 = c.0 as u128;
    let col: u128 = c.1 as u128;
    row * 0x1_0000_0000_0000_0000 + col
}

/// Different cells are held under different numbers.
proof fn lemma_keys_differ(a: (usize, usize), b: (usize, usize))
    ensures
        key_of(a) == key_of(b) ==> a == b,
{
}

/// The distance between two indices along one axis.
fn abs_diff(a: usize, b: usize) -> (d: usize)
    ensures
        d == gap(a, b),
{
    if a >= b {
        a - b
    } else {
        b - a
    }
}

/// The cost of a step from `a` to `b`, and the estimate of the cost of a
/// route from `a` to `b`.
fn distance(a: (usize, usize), b: (usize, usize)) -> (d: u128)
    ensures
        d == manhattan(a, b),
{
    let rows: u128 = abs_diff(a.0, b.0) as u128;
    let cols: u128 = abs_diff(a.1, b.1) as u128;
    rows + cols
}

/// Whether `coord` names a cell of `grid`.
fn valid_coords<T>(coord: (usize, usize), grid: &Grid2D<T>) -> (b: bool)
    ensures
        b == grid.in_bounds(coord),
        grid.spec_height() <= usize::MAX,
        grid.spec_width() <= usize::MAX,
{
    let rows = grid.height();
    let cols = grid.width();
    coord.0 < rows && coord.1 < cols
}

/// Whether an entry at the estimated total cost `f` for the cell `coords` is
/// strictly cheaper than every open entry for that cell.
fn improves(open: &Frontier, nodes: &Vec<Node>, coords: (usize, usize), f: u128) -> (b: bool)
    requires
        forall|k: int| 0 <= k < open@.len() ==> (#[trigger] open@[k]).1 < nodes.len(),
    ensures
        b <==> forall|k: int|
            0 <= k < open@.len() && nodes[(#[trigger] open@[k]).1 as int].coords == coords ==> f
                < open@[k].0,
{
    let mut k: usize = 0;
    while k < open.len()
        invariant
            k <= open@.len(),
            forall|k: int| 0 <= k < open@.len() ==> (#[trigger] open@[k]).1 < nodes.len(),
            forall|l: int|
                0 <= l < k && nodes[(#[trigger] open@[l]).1 as int].coords == coords ==> f
                    < open@[l].0,
        decreases open@.len() - k,
    {
        let entry = open.get(k);
        let at = &nodes[entry.1];
        if at.coords.0 == coords.0 && at.coords.1 == coords.1 && f >= entry.0 {
            return false;
        }
        k += 1;
    }
    true
}

/// The cells from the root to node `idx`, in walking order.
fn trace(nodes: &Vec<Node>, idx: usize) -> (path: Vec<(usize, usize)>)
    requires
        idx < nodes.len(),
        forall|i: int|
            0 <= i < nodes.len() ==> ((#[trigger] nodes[i]).prev matches Some(p) ==> p < i),
    ensures
        path@ == chain(nodes@, idx as int),
{
    let ghost full = chain(nodes@, idx as int);
    let back = |i: &usize| -> (p: Option<usize>)
        requires
            *i < nodes.len(),
        ensures
            p == nodes[*i as int].prev,
        { nodes[*i].prev };
    let mut walk = Some(idx).unfold(back);
    let mut rev: Vec<(usize, usize)> = Vec::new();
    loop
        invariant
            forall|i: usize| i < nodes.len() ==> call_requires(walk.step(), (&i,)),
            forall|i: usize, p: Option<usize>|
                call_ensures(walk.step(), (&i,), p) ==> p == nodes[i as int].prev,
            forall|i: int|
                0 <= i < nodes.len() ==> ((#[trigger] nodes[i]).prev matches Some(p) ==> p < i),
            full == chain(nodes@, idx as int),
            rev.len() <= full.len(),
            forall|k: int| 0 <= k < rev.len() ==> rev[k] == full[full.len() - 1 - k],
            match walk.pending() {
                Some(i) => i < nodes.len() && chain(nodes@, i as int) == full.take(
                    full.len() - rev.len(),
                ),
                None => rev.len() == full.len(),
            },
        ensures
            rev.len() == full.len(),
        decreases
                (match walk.pending() {
                    Some(i) => i + 1,
                    None => 0,
                }),
    {
        match walk.next() {
            Some(i) => {
                proof {
                    let here = chain(nodes@, i as int);
                    assert(here.last() == nodes[i as int].coords);
                    assert(here.last() == full[full.len() - rev.len() - 1]);
                    match nodes[i as int].prev {
                        Some(p) => {
                            assert(chain(nodes@, p as int) == here.drop_last());
                            assert(here.drop_last() == full.take(full.len() - rev.len() - 1));
                        },
                        None => {
                            assert(here.len() == 1);
                        },
                    }
                }
                rev.push(nodes[i].coords);
            },
            None => {
                break ;
            },
        }
    }
    let mut path: Vec<(usize, usize)> = Vec::new();
    let mut k: usize = rev.len();
    while k > 0
        invariant
            k <= rev.len(),
            rev.len() == full.len(),
            path.len() == rev.len() - k,
            forall|l: int| 0 <= l < rev.len() ==> rev[l] == full[full.len() - 1 - l],
            forall|l: int| 0 <= l < path.len() ==> path[l] == full[l],
        decreases k,
    {
        k -= 1;
        path.push(rev[k]);
    }
    assert(path@ == full);
    path
}

/// Finds a cheapest route from `start` to `end` through `grid`.
///
/// A route is a sequence of cells that begins at `start` and ends at `end`,
/// in which each cell touches the one before it by an edge or a corner and
/// is traversable; `start` itself need not be. Its cost is the sum over its
/// steps of the row distance plus the column distance covered. The result is
/// a route of the least cost there is, or `None` where there is no route,
/// which is the case whenever `start` or `end` lies outside the grid.
///
/// The search expands the open entry of the least estimated total cost, the
/// earliest among equals, and gives a cell a new entry only where that is
/// strictly cheaper than every open entry the cell has. So the route found
/// never comes near a cell again that it left two or more steps before, and
/// between two cells that touch it is the one step.
pub fn shortest_path<T: IsTraversable>(
    grid: &Grid2D<T>,
    start: (usize, usize),
    end: (usize, usize),
) -> (res: Option<Vec<(usize, usize)>>)
    requires
        grid.wf(),
    ensures
        res matches Some(path) ==> is_route(grid, start, end, path@),
        res matches Some(path) ==> is_taut(path@),
        res matches Some(path) ==> forall|q: Seq<(usize, usize)>| #[trigger]
            is_route(grid, start, end, q) ==> route_cost(path@) <= route_cost(q),
        res is None <==> forall|q: Seq<(usize, usize)>| !#[trigger] is_route(grid, start, end, q),
        !grid.in_bounds(start) || !grid.in_bounds(end) ==> res is None,
        grid.in_bounds(start) && start == end ==> (res matches Some(path) && path@ == seq![start]),
        grid.in_bounds(start) && grid.in_bounds(end) && adjacent(start, end) && grid.cell(
            end,
        ).traversable() ==> (res matches Some(path) && path@ == seq![start, end]),
        res matches Some(path) ==> (grid.cell(start).traversable() ==> forall|k: int|
            0 <= k < path.len() ==> grid.cell(#[trigger] path[k]).traversable()),
{
    if !valid_coords(start, grid) || !valid_coords(end, grid) {
        return None;
    }
    let ghost h = grid.spec_height();
    let ghost w = grid.spec_width();
    let mut nodes: Vec<Node> = Vec::new();
    let mut open = Frontier::new();
    let mut closed: HashSet<u128> = HashSet::new();
    let root = Node { coords: start, g_cost: 0, h_cost: distance(start, end), prev: None };
    let root_f = root.f_cost();
    nodes.push(root);
    open.push(root_f, 0);
    let ghost mut s = Search {
        nodes: nodes@,
        open: open@,
        closed: Set::empty(),
        best: Map::empty(),
        expanded: Set::empty(),
    };
    proof {
        assert(node_ok(grid, start, end, s.nodes, 0));
        assert(entry_coords(s, 0) == start);
    }
    loop
        invariant
            grid.wf(),
            h == grid.spec_height() <= usize::MAX,
            w == grid.spec_width() <= usize::MAX,
            inv(grid, start, end, s),
            s.nodes == nodes@,
            s.open == open@,
            holds_cells(closed@, s.closed),
        decreases unclosed(s.closed, h, w), count_in(open_coords(s), s.closed),
    {
        let ghost before = s;
        let idx = match open.pop() {
            Some(entry) => entry.1,
            None => {
                proof {
                    assert forall|q: Seq<(usize, usize)>| !#[trigger] is_route(
                        grid,
                        start,
                        end,
                        q,
                    ) by {
                        if is_route(grid, start, end, q) {
                            lemma_frontier_bound(grid, start, end, s, q);
                        }
                    }
                    assert(!is_route(grid, start, end, seq![start]));
                    assert(!is_route(grid, start, end, seq![start, end]));
                }
                return None;
            },
        };
        proof {
            lemma_first_min_index(s.open);
            assert(node_ok(grid, start, end, s.nodes, idx as int));
        }
        let cur = nodes[idx].coords;
        let g = nodes[idx].g_cost;
        if cur.0 == end.0 && cur.1 == end.1 {
            proof {
                assert forall|i: int| 0 <= i < nodes.len() implies ((
                #[trigger] nodes[i]).prev matches Some(p) ==> p < i) by {
                    assert(node_ok(grid, start, end, s.nodes, i));
                }
            }
            let path = trace(&nodes, idx);
            proof {
                lemma_chain_is_route(grid, start, end, s.nodes, idx as int);
                lemma_chain_is_taut(grid, start, end, s.nodes, idx as int);
                assert forall|q: Seq<(usize, usize)>| #[trigger]
                    is_route(grid, start, end, q) implies route_cost(path@) <= route_cost(q) by {
                    lemma_pop_is_cheapest(grid, start, end, s, q);
                }
                if !apart(start, end) {
                    lemma_taut_route_is_short(grid, start, end, path@);
                }
            }
            return Some(path);
        }
        closed.insert(cell_key(cur));
        let nbrs = grid.neighbours(cur);
        proof {
            s = lemma_take(grid, start, end, before, nbrs@);
            assert forall|c: (usize, usize)| s.closed.contains(c) <==> closed@.contains(
                #[trigger] key_of(c),
            ) by {
                lemma_keys_differ(c, cur);
            }
        }
        let ghost stale = count_in(open_coords(s), s.closed);
        let mut j: usize = 0;
        while j < nbrs.len()
            invariant
                grid.wf(),
                j <= nbrs.len(),
                expanding(grid, start, end, s, idx as int, nbrs@, j as int),
                s.nodes == nodes@,
                s.open == open@,
                holds_cells(closed@, s.closed),
                s.closed == before.closed.insert(cur),
                count_in(open_coords(s), s.closed) == stale,
                idx < nodes.len(),
                nodes[idx as int].coords == cur,
                nodes[idx as int].g_cost == g,
                forall|k: int|
                    0 <= k < nbrs.len() ==> {
                        let item = #[trigger] nbrs[k];
                        &&& grid.in_bounds((item.0, item.1))
                        &&& adjacent(cur, (item.0, item.1))
                        &&& *item.2 == grid.cell((item.0, item.1))
                    },
            decreases nbrs.len() - j,
        {
            let item = &nbrs[j];
            let n = (item.0, item.1);
            if item.2.is_traversable() && !closed.contains(&cell_key(n)) {
                proof {
                    assert(node_ok(grid, start, end, s.nodes, idx as int));
                }
                let node = Node {
                    coords: n,
                    g_cost: g + distance(n, cur),
                    h_cost: distance(n, end),
                    prev: Some(idx),
                };
                let f = node.f_cost();
                if improves(&open, &nodes, n, f) {
                    nodes.push(node);
                    open.push(f, nodes.len() - 1);
                    proof {
                        s = lemma_insert(
                            grid,
                            start,
                            end,
                            s,
                            idx as int,
                            nbrs@,
                            j as int,
                            nodes@.last(),
                            open@.last(),
                        );
                    }
                } else {
                    proof {
                        let k = choose|k: int|
                            0 <= k < open@.len() && nodes[(#[trigger] open@[k]).1 as int].coords
                                == n && !(f < open@[k].0);
                        assert(node_ok(grid, start, end, s.nodes, s.open[k].1 as int));
                        assert(entry_coords(s, k) == n);
                        lemma_skip(grid, start, end, s, idx as int, nbrs@, j as int);
                    }
                }
            } else {
                proof {
                    lemma_skip(grid, start, end, s, idx as int, nbrs@, j as int);
                }
            }
            j += 1;
        }
        proof {
            s = lemma_expanded(grid, start, end, s, idx as int, nbrs@);
        }
    }
}

/// The search as the proof sees it: every node made so far, the open entries
/// (an estimated total cost and a node each), the cells already expanded,
/// for each expanded cell the cost at which it was first expanded, and the
/// nodes whose expansion is complete.
struct Search {
    nodes: Seq<Node>,
    open: Seq<(u128, usize)>,
    closed: Set<(usize, usize)>,
    best: Map<(usize, usize), int>,
    expanded: Set<int>,
}

/// The cell of the `k`-th open entry.
spec fn entry_coords(s: Search, k: int) -> (usize, usize) {
    s.nodes[s.open[k].1 as int].coords
}

/// The cost at which the `k`-th open entry reaches its cell.
spec fn entry_g(s: Search, k: int) -> int {
    s.nodes[s.open[k].1 as int].g_cost as int
}

/// Whether some open entry reaches `n` at a cost of at most `bound`.
spec fn reached(s: Search, n: (usize, usize), bound: int) -> bool {
    exists|k: int| 0 <= k < s.open.len() && #[trigger] entry_coords(s, k) == n && entry_g(s, k) <= bound
}

/// Node `i` is either the root at `start`, or one step from an earlier node.
spec fn node_ok<T: IsTraversable>(
    grid: &Grid2D<T>,
    start: (usize, usize),
    end: (usize, usize),
    nodes: Seq<Node>,
    i: int,
) -> bool {
    let n = nodes[i];
    &&& grid.in_bounds(n.coords)
    &&& n.h_cost == manhattan(n.coords, end)
    &&& n.g_cost <= 2 * i
    &&& match n.prev {
        None => n.coords == start && n.g_cost == 0,
        Some(p) => {
            &&& p < i
            &&& adjacent(nodes[p as int].coords, n.coords)
            &&& grid.cell(n.coords).traversable()
            &&& n.g_cost == nodes[p as int].g_cost + manhattan(nodes[p as int].coords, n.coords)
        },
    }
}

/// Whether `n` coincides with or touches the cell of node `i` or of one of
/// the nodes that `i` descends from.
spec fn near_trail(nodes: Seq<Node>, i: int, n: (usize, usize)) -> bool
    decreases i,
{
    !apart(nodes[i].coords, n) || match nodes[i].prev {
        Some(p) if p < i => near_trail(nodes, p as int, n),
        _ => false,
    }
}

/// The cell of node `i` keeps clear of every node before its parent on the
/// way back to the root.
spec fn keeps_clear(nodes: Seq<Node>, i: int) -> bool {
    nodes[i].prev matches Some(p) ==> (nodes[p as int].prev matches Some(pp) ==> !near_trail(
        nodes,
        pp as int,
        nodes[i].coords,
    ))
}

/// Every traversable cell next to the cell of the expanded node `e` is
/// expanded or has an open entry that is no dearer than the way over `e`.
spec fn node_covers<T: IsTraversable>(grid: &Grid2D<T>, s: Search, e: int) -> bool {
    forall|n: (usize, usize)|
        #[trigger] adjacent(s.nodes[e].coords, n) && grid.in_bounds(n) && grid.cell(
            n,
        ).traversable() && !s.closed.contains(n) ==> reached(
            s,
            n,
            s.nodes[e].g_cost + manhattan(s.nodes[e].coords, n),
        )
}

/// Every traversable cell next to the expanded cell `c` is expanded too or
/// has an open entry that is no dearer than the way over `c`.
spec fn covers<T: IsTraversable>(grid: &Grid2D<T>, s: Search, c: (usize, usize)) -> bool {
    forall|n: (usize, usize)|
        #[trigger] adjacent(c, n) && grid.in_bounds(n) && grid.cell(n).traversable()
            && !s.closed.contains(n) ==> reached(s, n, s.best[c] + manhattan(c, n))
}

/// No route from `start` to the expanded cell `c` is cheaper than the cost at
/// which `c` was expanded.
spec fn sound_bound<T: IsTraversable>(
    grid: &Grid2D<T>,
    start: (usize, usize),
    s: Search,
    c: (usize, usize),
) -> bool {
    forall|q: Seq<(usize, usize)>| #[trigger] is_route(grid, start, c, q) ==> s.best[c] <= route_cost(q)
}

/// What holds of the search at every moment.
spec fn base_inv<T: IsTraversable>(
    grid: &Grid2D<T>,
    start: (usize, usize),
    end: (usize, usize),
    s: Search,
) -> bool {
    &&& grid.in_bounds(start)
    &&& grid.in_bounds(end)
    &&& forall|i: int| 0 <= i < s.nodes.len() ==> #[trigger] node_ok(grid, start, end, s.nodes, i)
    &&& forall|k: int|
        0 <= k < s.open.len() ==> (#[trigger] s.open[k]).1 < s.nodes.len() && s.open[k].0
            == s.nodes[s.open[k].1 as int].g_cost + s.nodes[s.open[k].1 as int].h_cost
    &&& forall|c: (usize, usize)| #[trigger]
        s.closed.contains(c) ==> grid.in_bounds(c) && sound_bound(grid, start, s, c)
    &&& !s.closed.contains(end)
    &&& !s.closed.contains(start) ==> reached(s, start, 0)
    &&& forall|i: int| 0 <= i < s.nodes.len() ==> #[trigger] keeps_clear(s.nodes, i)
    &&& forall|e: int| #[trigger]
        s.expanded.contains(e) ==> 0 <= e < s.nodes.len() && s.closed.contains(s.nodes[e].coords)
            && node_covers(grid, s, e)
}

/// What holds of the search between two expansions.
spec fn inv<T: IsTraversable>(
    grid: &Grid2D<T>,
    start: (usize, usize),
    end: (usize, usize),
    s: Search,
) -> bool {
    &&& base_inv(grid, start, end, s)
    &&& forall|c: (usize, usize)| #[trigger] s.closed.contains(c) ==> covers(grid, s, c)
    &&& forall|i: int|
        0 <= i < s.nodes.len() ==> ((#[trigger] s.nodes[i]).prev matches Some(p)
            ==> s.expanded.contains(p as int))
}

/// What holds of the search while node `idx`, taken out of the open set at
/// the cell `cur` and the cost `g`, is being expanded and the first `done` of
/// the cell's neighbours `nbrs` are dealt with.
spec fn expanding<T: IsTraversable>(
    grid: &Grid2D<T>,
    start: (usize, usize),
    end: (usize, usize),
    s: Search,
    idx: int,
    nbrs: Seq<(usize, usize, &T)>,
    done: int,
) -> bool {
    let cur = s.nodes[idx].coords;
    let g = s.nodes[idx].g_cost as int;
    &&& base_inv(grid, start, end, s)
    &&& 0 <= idx < s.nodes.len()
    &&& forall|i: int|
        0 <= i < s.nodes.len() ==> ((#[trigger] s.nodes[i]).prev matches Some(p)
            ==> s.expanded.contains(p as int) || p == idx)
    &&& s.closed.contains(cur)
    &&& forall|c: (usize, usize)| #[trigger] s.closed.contains(c) && c != cur ==> covers(grid, s, c)
    &&& s.best[cur] == g || covers(grid, s, cur)
    &&& forall|j: int|
        0 <= j < done ==> {
            let n = ((#[trigger] nbrs[j]).0, nbrs[j].1);
            grid.cell(n).traversable() && !s.closed.contains(n) ==> reached(
                s,
                n,
                g + manhattan(cur, n),
            )
        }
}

/// The first cell of `path` at or after position `from` that is not in
/// `closed`.
proof fn first_unclosed(path: Seq<(usize, usize)>, closed: Set<(usize, usize)>, from: int) -> (k:
    int)
    requires
        0 <= from < path.len(),
        !closed.contains(path[path.len() - 1]),
        forall|j: int| 0 <= j < from ==> closed.contains(#[trigger] path[j]),
    ensures
        from <= k < path.len(),
        !closed.contains(path[k]),
        forall|j: int| 0 <= j < k ==> closed.contains(#[trigger] path[j]),
    decreases path.len() - from,
{
    if !closed.contains(path[from]) {
        from
    } else {
        first_unclosed(path, closed, from + 1)
    }
}

/// Every route to a cell that is not yet expanded passes a cell with an open
/// entry that is no dearer than the route up to there.
proof fn lemma_frontier_bound<T: IsTraversable>(
    grid: &Grid2D<T>,
    start: (usize, usize),
    end: (usize, usize),
    s: Search,
    q: Seq<(usize, usize)>,
) -> (r: (int, int))
    requires
        inv(grid, start, end, s),
        q.len() > 0,
        is_route(grid, start, q[q.len() - 1], q),
        !s.closed.contains(q[q.len() - 1]),
    ensures
        0 <= r.0 < q.len(),
        0 <= r.1 < s.open.len(),
        entry_coords(s, r.1) == q[r.0],
        entry_g(s, r.1) <= route_cost(q.take(r.0 + 1)),
{
    let k = first_unclosed(q, s.closed, 0);
    if k == 0 {
        assert(reached(s, start, 0));
        let e = choose|e: int|
            0 <= e < s.open.len() && #[trigger] entry_coords(s, e) == start && entry_g(s, e) <= 0;
        assert(route_cost(q.take(1)) == 0);
        (k, e)
    } else {
        let c = q[k - 1];
        let n = q[k];
        assert(s.closed.contains(c));
        assert(covers(grid, s, c));
        assert(adjacent(c, n) && grid.cell(n).traversable());
        assert(reached(s, n, s.best[c] + manhattan(c, n)));
        let e = choose|e: int|
            0 <= e < s.open.len() && #[trigger] entry_coords(s, e) == n && entry_g(s, e)
                <= s.best[c] + manhattan(c, n);
        lemma_route_prefix(grid, start, q[q.len() - 1], q, k - 1);
        assert(sound_bound(grid, start, s, c));
        assert(s.best[c] <= route_cost(q.take(k)));
        assert(q.take(k + 1).drop_last() == q.take(k));
        assert(route_cost(q.take(k + 1)) == route_cost(q.take(k)) + manhattan(c, n));
        (k, e)
    }
}

/// The entry that leaves the open set next reaches its cell, unless that
/// cell is expanded already, as cheaply as any route does.
proof fn lemma_pop_is_cheapest<T: IsTraversable>(
    grid: &Grid2D<T>,
    start: (usize, usize),
    end: (usize, usize),
    s: Search,
    q: Seq<(usize, usize)>,
)
    requires
        inv(grid, start, end, s),
        s.open.len() > 0,
        !s.closed.contains(entry_coords(s, first_min_index(s.open))),
        is_route(grid, start, entry_coords(s, first_min_index(s.open)), q),
    ensures
        entry_g(s, first_min_index(s.open)) <= route_cost(q),
{
    let i = first_min_index(s.open);
    lemma_first_min_index(s.open);
    let (k, e) = lemma_frontier_bound(grid, start, end, s, q);
    lemma_cost_split(q, k);
    assert(s.open[i].0 <= s.open[e].0);
    assert(node_ok(grid, start, end, s.nodes, s.open[i].1 as int));
    assert(node_ok(grid, start, end, s.nodes, s.open[e].1 as int));
}

/// The cells from the root to node `i`, in walking order.
spec fn chain(nodes: Seq<Node>, i: int) -> Seq<(usize, usize)>
    decreases i,
{
    match nodes[i].prev {
        Some(p) if p < i => chain(nodes, p as int).push(nodes[i].coords),
        _ => seq![nodes[i].coords],
    }
}

/// The cells from the root to a node form a route to the node's cell, and the
/// node's cost is the cost of that route.
proof fn lemma_chain_is_route<T: IsTraversable>(
    grid: &Grid2D<T>,
    start: (usize, usize),
    end: (usize, usize),
    nodes: Seq<Node>,
    i: int,
)
    requires
        0 <= i < nodes.len(),
        forall|j: int| 0 <= j < nodes.len() ==> #[trigger] node_ok(grid, start, end, nodes, j),
    ensures
        is_route(grid, start, nodes[i].coords, chain(nodes, i)),
        route_cost(chain(nodes, i)) == nodes[i].g_cost,
    decreases i,
{
    assert(node_ok(grid, start, end, nodes, i));
    match nodes[i].prev {
        Some(p) => {
            let before = chain(nodes, p as int);
            let whole = chain(nodes, i);
            lemma_chain_is_route(grid, start, end, nodes, p as int);
            assert(whole == before.push(nodes[i].coords));
            assert(whole.drop_last() == before);
            assert forall|k: int| 0 <= k < whole.len() implies grid.in_bounds(
                #[trigger] whole[k],
            ) by {
                if k < before.len() {
                    assert(whole[k] == before[k]);
                }
            }
            assert forall|k: int| 1 <= k < whole.len() implies adjacent(
                whole[k - 1],
                #[trigger] whole[k],
            ) && grid.cell(whole[k]).traversable() by {
                if k < before.len() {
                    assert(whole[k] == before[k]);
                    assert(whole[k - 1] == before[k - 1]);
                }
            }
        },
        None => {},
    }
}

/// The cells of the open entries, in the order of the entries.
spec fn open_coords(s: Search) -> Seq<(usize, usize)> {
    Seq::new(s.open.len(), |k: int| entry_coords(s, k))
}

/// How many of `items` are in `set`, counted with repetition.
spec fn count_in(items: Seq<(usize, usize)>, set: Set<(usize, usize)>) -> nat
    decreases items.len(),
{
    if items.len() == 0 {
        0
    } else {
        count_in(items.drop_last(), set) + if set.contains(items.last()) {
            1nat
        } else {
            0nat
        }
    }
}

/// Appending an item raises the count by one if the item is in the set.
proof fn lemma_count_push(items: Seq<(usize, usize)>, x: (usize, usize), set: Set<(usize, usize)>)
    ensures
        count_in(items.push(x), set) == count_in(items, set) + if set.contains(x) {
            1nat
        } else {
            0nat
        },
{
    assert(items.push(x).drop_last() == items);
}

/// Removing an item lowers the count by one if the item is in the set.
proof fn lemma_count_remove(items: Seq<(usize, usize)>, i: int, set: Set<(usize, usize)>)
    requires
        0 <= i < items.len(),
    ensures
        count_in(items.remove(i), set) == count_in(items, set) - if set.contains(items[i]) {
            1nat
        } else {
            0nat
        },
    decreases items.len(),
{
    if i == items.len() - 1 {
        assert(items.remove(i) == items.drop_last());
    } else {
        lemma_count_remove(items.drop_last(), i, set);
        assert(items.remove(i).drop_last() == items.drop_last().remove(i));
        assert(items.remove(i).last() == items.last());
    }
}

/// How many of the first `w` cells of row `r` are not in `closed`.
spec fn unclosed_in_row(closed: Set<(usize, usize)>, r: usize, w: nat) -> nat
    decreases w,
{
    if w == 0 {
        0
    } else {
        unclosed_in_row(closed, r, (w - 1) as nat) + if closed.contains((r, (w - 1) as usize)) {
            0nat
        } else {
            1nat
        }
    }
}

/// How many cells of the first `h` rows, each `w` cells long, are not in
/// `closed`.
spec fn unclosed(closed: Set<(usize, usize)>, h: nat, w: nat) -> nat
    decreases h,
{
    if h == 0 {
        0
    } else {
        unclosed(closed, (h - 1) as nat, w) + unclosed_in_row(closed, (h - 1) as usize, w)
    }
}

/// Expanding a cell outside the counted part of a row leaves the count.
proof fn lemma_row_unchanged(closed: Set<(usize, usize)>, c: (usize, usize), r: usize, w: nat)
    requires
        c.0 != r || c.1 >= w,
        w <= usize::MAX + 1,
    ensures
        unclosed_in_row(closed.insert(c), r, w) == unclosed_in_row(closed, r, w),
    decreases w,
{
    if w > 0 {
        lemma_row_unchanged(closed, c, r, (w - 1) as nat);
    }
}

/// Expanding a cell in the counted part of its row lowers the count by one.
proof fn lemma_row_shrinks(closed: Set<(usize, usize)>, c: (usize, usize), w: nat)
    requires
        c.1 < w <= usize::MAX + 1,
        !closed.contains(c),
    ensures
        unclosed_in_row(closed.insert(c), c.0, w) == unclosed_in_row(closed, c.0, w) - 1,
    decreases w,
{
    if w - 1 == c.1 {
        lemma_row_unchanged(closed, c, c.0, (w - 1) as nat);
    } else {
        lemma_row_shrinks(closed, c, (w - 1) as nat);
    }
}

/// Expanding a cell below the counted rows leaves the count.
proof fn lemma_rows_unchanged(closed: Set<(usize, usize)>, c: (usize, usize), h: nat, w: nat)
    requires
        c.0 >= h,
        h <= usize::MAX + 1,
        w <= usize::MAX + 1,
    ensures
        unclosed(closed.insert(c), h, w) == unclosed(closed, h, w),
    decreases h,
{
    if h > 0 {
        lemma_rows_unchanged(closed, c, (h - 1) as nat, w);
        lemma_row_unchanged(closed, c, (h - 1) as usize, w);
    }
}

/// Expanding one more cell of the grid leaves one cell fewer to expand.
proof fn lemma_close_cell(closed: Set<(usize, usize)>, c: (usize, usize), h: nat, w: nat)
    requires
        c.0 < h <= usize::MAX + 1,
        c.1 < w <= usize::MAX + 1,
        !closed.contains(c),
    ensures
        unclosed(closed.insert(c), h, w) == unclosed(closed, h, w) - 1,
    decreases h,
{
    if h - 1 == c.0 {
        lemma_row_shrinks(closed, c, w);
        lemma_rows_unchanged(closed, c, (h - 1) as nat, w);
    } else {
        lemma_close_cell(closed, c, (h - 1) as nat, w);
        lemma_row_unchanged(closed, c, (h - 1) as usize, w);
    }
}

/// An open entry for another cell than the one taken out stays open.
proof fn lemma_reached_after_take(s: Search, s1: Search, i: int, n: (usize, usize), bound: int)
    requires
        0 <= i < s.open.len(),
        s1.nodes == s.nodes,
        s1.open == s.open.remove(i),
        n != entry_coords(s, i),
        reached(s, n, bound),
    ensures
        reached(s1, n, bound),
{
    let k = choose|k: int|
        0 <= k < s.open.len() && #[trigger] entry_coords(s, k) == n && entry_g(s, k) <= bound;
    let k1 = if k < i {
        k
    } else {
        k - 1
    };
    assert(entry_coords(s1, k1) == n);
}

/// Open entries stay open when a node and an entry for it are added.
proof fn lemma_reached_after_insert(s: Search, s2: Search, n: (usize, usize), bound: int)
    requires
        forall|k: int| 0 <= k < s.open.len() ==> (#[trigger] s.open[k]).1 < s.nodes.len(),
        s2.nodes.len() == s.nodes.len() + 1,
        s2.nodes.drop_last() == s.nodes,
        s2.open.len() == s.open.len() + 1,
        s2.open.drop_last() == s.open,
        reached(s, n, bound),
    ensures
        reached(s2, n, bound),
{
    let k = choose|k: int|
        0 <= k < s.open.len() && #[trigger] entry_coords(s, k) == n && entry_g(s, k) <= bound;
    assert(s2.open[k] == s.open[k]);
    assert(s2.nodes[s.open[k].1 as int] == s.nodes[s.open[k].1 as int]);
    assert(entry_coords(s2, k) == n);
}

/// Adding a node changes nothing on the way back from an earlier node.
proof fn lemma_trail_stable(nodes: Seq<Node>, x: Node, a: int, n: (usize, usize))
    requires
        0 <= a < nodes.len(),
    ensures
        near_trail(nodes.push(x), a, n) == near_trail(nodes, a, n),
    decreases a,
{
    assert(nodes.push(x)[a] == nodes[a]);
    match nodes[a].prev {
        Some(p) => {
            if p < a {
                lemma_trail_stable(nodes, x, p as int, n);
            }
        },
        None => {},
    }
}

/// A cell that gets a node of its own while node `idx` is expanded keeps
/// clear of the expanded node `a` and of all nodes that `a` descends from,
/// where `idx` descends from `a`: a cell near one of these would have had an
/// open entry since then that the new node could not beat.
proof fn lemma_trail_clear<T: IsTraversable>(
    grid: &Grid2D<T>,
    start: (usize, usize),
    end: (usize, usize),
    s: Search,
    idx: int,
    nbrs: Seq<(usize, usize, &T)>,
    done: int,
    a: int,
    n: (usize, usize),
)
    requires
        expanding(grid, start, end, s, idx, nbrs, done),
        s.expanded.contains(a),
        a < idx,
        s.nodes[a].g_cost + manhattan(s.nodes[a].coords, s.nodes[idx].coords)
            <= s.nodes[idx].g_cost,
        grid.in_bounds(n),
        grid.cell(n).traversable(),
        !s.closed.contains(n),
        forall|k: int|
            0 <= k < s.open.len() && #[trigger] entry_coords(s, k) == n ==> entry_g(s, k)
                > s.nodes[idx].g_cost + manhattan(s.nodes[idx].coords, n),
    ensures
        !near_trail(s.nodes, a, n),
    decreases a,
{
    let at = s.nodes[a].coords;
    assert(node_ok(grid, start, end, s.nodes, a));
    assert(node_covers(grid, s, a));
    if adjacent(at, n) {
        assert(reached(s, n, s.nodes[a].g_cost + manhattan(at, n)));
        let k = choose|k: int|
            0 <= k < s.open.len() && #[trigger] entry_coords(s, k) == n && entry_g(s, k)
                <= s.nodes[a].g_cost + manhattan(at, n);
        assert(false);
    }
    assert(apart(at, n));
    match s.nodes[a].prev {
        Some(p) => {
            assert(s.expanded.contains(p as int));
            lemma_trail_clear(grid, start, end, s, idx, nbrs, done, p as int, n);
        },
        None => {},
    }
}

/// A cell that keeps clear of node `a` and of the nodes that `a` descends
/// from is apart from every cell on the way from the root to `a`.
proof fn lemma_clear_of_chain(nodes: Seq<Node>, a: int, n: (usize, usize))
    requires
        0 <= a < nodes.len(),
        !near_trail(nodes, a, n),
    ensures
        forall|k: int| 0 <= k < chain(nodes, a).len() ==> apart(#[trigger] chain(nodes, a)[k], n),
    decreases a,
{
    let whole = chain(nodes, a);
    match nodes[a].prev {
        Some(p) => {
            if p < a {
                let front = chain(nodes, p as int);
                lemma_clear_of_chain(nodes, p as int, n);
                assert(whole == front.push(nodes[a].coords));
                assert forall|k: int| 0 <= k < whole.len() implies apart(#[trigger] whole[k], n) by {
                    if k < front.len() {
                        assert(whole[k] == front[k]);
                    }
                }
            }
        },
        None => {},
    }
}

/// The way from the root to a node never comes near a cell that it left two
/// or more steps earlier.
proof fn lemma_chain_is_taut<T: IsTraversable>(
    grid: &Grid2D<T>,
    start: (usize, usize),
    end: (usize, usize),
    nodes: Seq<Node>,
    i: int,
)
    requires
        0 <= i < nodes.len(),
        forall|j: int| 0 <= j < nodes.len() ==> #[trigger] node_ok(grid, start, end, nodes, j),
        forall|j: int| 0 <= j < nodes.len() ==> #[trigger] keeps_clear(nodes, j),
    ensures
        is_taut(chain(nodes, i)),
    decreases i,
{
    assert(node_ok(grid, start, end, nodes, i));
    assert(keeps_clear(nodes, i));
    match nodes[i].prev {
        Some(p) => {
            assert(node_ok(grid, start, end, nodes, p as int));
            lemma_chain_is_taut(grid, start, end, nodes, p as int);
            let whole = chain(nodes, i);
            let front = chain(nodes, p as int);
            assert(whole == front.push(nodes[i].coords));
            match nodes[p as int].prev {
                Some(pp) => {
                    lemma_clear_of_chain(nodes, pp as int, nodes[i].coords);
                    assert(front == chain(nodes, pp as int).push(nodes[p as int].coords));
                },
                None => {},
            }
            assert forall|k: int, j: int| 0 <= k && k + 2 <= j < whole.len() implies apart(
                #[trigger] whole[k],
                #[trigger] whole[j],
            ) by {
                if j < front.len() {
                    assert(whole[k] == front[k] && whole[j] == front[j]);
                } else {
                    let pp = nodes[p as int].prev->0;
                    assert(whole[k] == chain(nodes, pp as int)[k]);
                }
            }
        },
        None => {},
    }
}

/// Taking the cheapest entry out of the open set and marking its cell as
/// expanded: what the search looks like before the cell's neighbours are
/// dealt with, and why the search has come closer to its end.
proof fn lemma_take<T: IsTraversable>(
    grid: &Grid2D<T>,
    start: (usize, usize),
    end: (usize, usize),
    s: Search,
    nbrs: Seq<(usize, usize, &T)>,
) -> (s1: Search)
    requires
        inv(grid, start, end, s),
        s.open.len() > 0,
        entry_coords(s, first_min_index(s.open)) != end,
        grid.spec_height() <= usize::MAX,
        grid.spec_width() <= usize::MAX,
    ensures
        s1.nodes == s.nodes,
        s1.open == s.open.remove(first_min_index(s.open)),
        s1.closed == s.closed.insert(entry_coords(s, first_min_index(s.open))),
        s1.expanded == s.expanded,
        expanding(grid, start, end, s1, s.open[first_min_index(s.open)].1 as int, nbrs, 0),
        unclosed(s1.closed, grid.spec_height(), grid.spec_width()) < unclosed(
            s.closed,
            grid.spec_height(),
            grid.spec_width(),
        ) || (s1.closed == s.closed && count_in(open_coords(s1), s1.closed) < count_in(
            open_coords(s),
            s.closed,
        )),
{
    let i = first_min_index(s.open);
    lemma_first_min_index(s.open);
    let cur = entry_coords(s, i);
    let g = entry_g(s, i);
    let fresh = !s.closed.contains(cur);
    let s1 = Search {
        nodes: s.nodes,
        open: s.open.remove(i),
        closed: s.closed.insert(cur),
        best: if fresh {
            s.best.insert(cur, g)
        } else {
            s.best
        },
        expanded: s.expanded,
    };
    assert(node_ok(grid, start, end, s.nodes, s.open[i].1 as int));
    assert forall|c: (usize, usize)| #[trigger] s1.closed.contains(c) implies grid.in_bounds(c)
        && sound_bound(grid, start, s1, c) by {
        if c == cur && fresh {
            assert forall|q: Seq<(usize, usize)>| #[trigger]
                is_route(grid, start, c, q) implies s1.best[c] <= route_cost(q) by {
                lemma_pop_is_cheapest(grid, start, end, s, q);
            }
        } else {
            assert(s.closed.contains(c));
            assert(sound_bound(grid, start, s, c));
            assert(s1.best[c] == s.best[c]);
        }
    }
    if !s1.closed.contains(start) {
        lemma_reached_after_take(s, s1, i, start, 0);
    }
    assert forall|i: int| 0 <= i < s1.nodes.len() implies #[trigger] keeps_clear(s1.nodes, i) by {
        assert(keeps_clear(s.nodes, i));
    }
    assert forall|e: int| #[trigger] s1.expanded.contains(e) implies 0 <= e < s1.nodes.len()
        && s1.closed.contains(s1.nodes[e].coords) && node_covers(grid, s1, e) by {
        assert(s.expanded.contains(e));
        assert(node_covers(grid, s, e));
        assert forall|n: (usize, usize)|
            #[trigger] adjacent(s1.nodes[e].coords, n) && grid.in_bounds(n) && grid.cell(
                n,
            ).traversable() && !s1.closed.contains(n) implies reached(
            s1,
            n,
            s1.nodes[e].g_cost + manhattan(s1.nodes[e].coords, n),
        ) by {
            lemma_reached_after_take(
                s,
                s1,
                i,
                n,
                s.nodes[e].g_cost + manhattan(s.nodes[e].coords, n),
            );
        }
    }
    assert forall|c: (usize, usize)|
        #[trigger] s1.closed.contains(c) && (c != cur || !fresh) implies covers(grid, s1, c) by {
        assert(s.closed.contains(c));
        assert(covers(grid, s, c));
        assert(s1.best[c] == s.best[c]);
        assert forall|n: (usize, usize)|
            #[trigger] adjacent(c, n) && grid.in_bounds(n) && grid.cell(n).traversable()
                && !s1.closed.contains(n) implies reached(
            s1,
            n,
            s1.best[c] + manhattan(c, n),
        ) by {
            lemma_reached_after_take(s, s1, i, n, s.best[c] + manhattan(c, n));
        }
    }
    if fresh {
        lemma_close_cell(s.closed, cur, grid.spec_height(), grid.spec_width());
    } else {
        assert(s1.closed == s.closed);
        assert(open_coords(s1) == open_coords(s).remove(i));
        lemma_count_remove(open_coords(s), i, s.closed);
    }
    s1
}

/// A neighbour that is blocked, expanded already, or open at no greater cost
/// is dealt with by leaving the search as it is.
proof fn lemma_skip<T: IsTraversable>(
    grid: &Grid2D<T>,
    start: (usize, usize),
    end: (usize, usize),
    s: Search,
    idx: int,
    nbrs: Seq<(usize, usize, &T)>,
    done: int,
)
    requires
        expanding(grid, start, end, s, idx, nbrs, done),
        0 <= done < nbrs.len(),
        !grid.cell((nbrs[done].0, nbrs[done].1)).traversable() || s.closed.contains(
            (nbrs[done].0, nbrs[done].1),
        ) || reached(
            s,
            (nbrs[done].0, nbrs[done].1),
            s.nodes[idx].g_cost + manhattan(s.nodes[idx].coords, (nbrs[done].0, nbrs[done].1)),
        ),
    ensures
        expanding(grid, start, end, s, idx, nbrs, done + 1),
{
}

/// A neighbour that gets a node and an open entry of its own, because the
/// entry is cheaper than every open entry for the same cell, is dealt with.
proof fn lemma_insert<T: IsTraversable>(
    grid: &Grid2D<T>,
    start: (usize, usize),
    end: (usize, usize),
    s: Search,
    idx: int,
    nbrs: Seq<(usize, usize, &T)>,
    done: int,
    node: Node,
    entry: (u128, usize),
) -> (s2: Search)
    requires
        expanding(grid, start, end, s, idx, nbrs, done),
        0 <= done < nbrs.len(),
        node.coords == (nbrs[done].0, nbrs[done].1),
        grid.in_bounds(node.coords),
        adjacent(s.nodes[idx].coords, node.coords),
        grid.cell(node.coords).traversable(),
        !s.closed.contains(node.coords),
        node.prev == Some(idx as usize),
        node.g_cost == s.nodes[idx].g_cost + manhattan(s.nodes[idx].coords, node.coords),
        node.h_cost == manhattan(node.coords, end),
        entry.0 == node.g_cost + node.h_cost,
        entry.1 == s.nodes.len(),
        forall|k: int|
            0 <= k < s.open.len() && s.nodes[(#[trigger] s.open[k]).1 as int].coords
                == node.coords ==> entry.0 < s.open[k].0,
    ensures
        s2.nodes == s.nodes.push(node),
        s2.open == s.open.push(entry),
        s2.closed == s.closed,
        s2.expanded == s.expanded,
        expanding(grid, start, end, s2, idx, nbrs, done + 1),
        count_in(open_coords(s2), s2.closed) == count_in(open_coords(s), s.closed),
{
    let cur = s.nodes[idx].coords;
    let g = s.nodes[idx].g_cost as int;
    let s2 = Search {
        nodes: s.nodes.push(node),
        open: s.open.push(entry),
        closed: s.closed,
        best: s.best,
        expanded: s.expanded,
    };
    assert(node_ok(grid, start, end, s.nodes, idx));
    assert forall|i: int| 0 <= i < s2.nodes.len() implies #[trigger] node_ok(
        grid,
        start,
        end,
        s2.nodes,
        i,
    ) by {
        if i < s.nodes.len() {
            assert(node_ok(grid, start, end, s.nodes, i));
            assert(s2.nodes[i] == s.nodes[i]);
        }
    }
    assert forall|k: int| 0 <= k < s2.open.len() implies (#[trigger] s2.open[k]).1
        < s2.nodes.len() && s2.open[k].0 == s2.nodes[s2.open[k].1 as int].g_cost
        + s2.nodes[s2.open[k].1 as int].h_cost by {
        if k < s.open.len() {
            assert(s2.open[k] == s.open[k]);
        }
    }
    assert(s2.nodes.drop_last() == s.nodes);
    assert(s2.open.drop_last() == s.open);
    assert forall|c: (usize, usize)| #[trigger] s2.closed.contains(c) implies sound_bound(
        grid,
        start,
        s2,
        c,
    ) by {
        assert(sound_bound(grid, start, s, c));
    }
    if !s2.closed.contains(start) {
        lemma_reached_after_insert(s, s2, start, 0);
    }
    assert forall|i: int| 0 <= i < s2.nodes.len() implies #[trigger] keeps_clear(s2.nodes, i) by {
        if i < s.nodes.len() {
            assert(keeps_clear(s.nodes, i));
            assert(node_ok(grid, start, end, s.nodes, i));
            assert(s2.nodes[i] == s.nodes[i]);
            match s.nodes[i].prev {
                Some(p) => {
                    assert(node_ok(grid, start, end, s.nodes, p as int));
                    assert(s2.nodes[p as int] == s.nodes[p as int]);
                    match s.nodes[p as int].prev {
                        Some(pp) => {
                            lemma_trail_stable(s.nodes, node, pp as int, s.nodes[i].coords);
                        },
                        None => {},
                    }
                },
                None => {},
            }
        } else {
            assert(s2.nodes[i] == node);
            assert(s2.nodes[idx] == s.nodes[idx]);
            match s.nodes[idx].prev {
                Some(pp) => {
                    assert(s.expanded.contains(pp as int));
                    assert forall|k: int|
                        0 <= k < s.open.len() && #[trigger] entry_coords(s, k)
                            == node.coords implies entry_g(s, k) > g + manhattan(
                        cur,
                        node.coords,
                    ) by {
                        assert(node_ok(grid, start, end, s.nodes, s.open[k].1 as int));
                    }
                    lemma_trail_clear(
                        grid,
                        start,
                        end,
                        s,
                        idx,
                        nbrs,
                        done,
                        pp as int,
                        node.coords,
                    );
                    lemma_trail_stable(s.nodes, node, pp as int, node.coords);
                },
                None => {},
            }
        }
    }
    assert forall|e: int| #[trigger] s2.expanded.contains(e) implies 0 <= e < s2.nodes.len()
        && s2.closed.contains(s2.nodes[e].coords) && node_covers(grid, s2, e) by {
        assert(s.expanded.contains(e));
        assert(node_covers(grid, s, e));
        assert(s2.nodes[e] == s.nodes[e]);
        assert forall|n: (usize, usize)|
            #[trigger] adjacent(s2.nodes[e].coords, n) && grid.in_bounds(n) && grid.cell(
                n,
            ).traversable() && !s2.closed.contains(n) implies reached(
            s2,
            n,
            s2.nodes[e].g_cost + manhattan(s2.nodes[e].coords, n),
        ) by {
            lemma_reached_after_insert(
                s,
                s2,
                n,
                s.nodes[e].g_cost + manhattan(s.nodes[e].coords, n),
            );
        }
    }
    assert forall|i: int| 0 <= i < s2.nodes.len() implies ((
    #[trigger] s2.nodes[i]).prev matches Some(p) ==> s2.expanded.contains(p as int) || p
        == idx) by {
        if i < s.nodes.len() {
            assert(s2.nodes[i] == s.nodes[i]);
        }
    }
    assert forall|c: (usize, usize)| s.closed.contains(c) && covers(grid, s, c) implies covers(
        grid,
        s2,
        c,
    ) by {
        assert forall|n: (usize, usize)|
            #[trigger] adjacent(c, n) && grid.in_bounds(n) && grid.cell(n).traversable()
                && !s2.closed.contains(n) implies reached(
            s2,
            n,
            s2.best[c] + manhattan(c, n),
        ) by {
            lemma_reached_after_insert(s, s2, n, s.best[c] + manhattan(c, n));
        }
    }
    assert(s2.nodes[idx] == s.nodes[idx]);
    assert forall|j: int| 0 <= j < done + 1 implies {
        let n = ((#[trigger] nbrs[j]).0, nbrs[j].1);
        grid.cell(n).traversable() && !s2.closed.contains(n) ==> reached(
            s2,
            n,
            g + manhattan(cur, n),
        )
    } by {
        let n = (nbrs[j].0, nbrs[j].1);
        if j < done {
            if grid.cell(n).traversable() && !s2.closed.contains(n) {
                lemma_reached_after_insert(s, s2, n, g + manhattan(cur, n));
            }
        } else {
            assert(entry_coords(s2, s.open.len() as int) == node.coords);
        }
    }
    assert(open_coords(s2) == open_coords(s).push(node.coords)) by {
        assert forall|k: int| 0 <= k < s.open.len() implies entry_coords(s2, k) == entry_coords(
            s,
            k,
        ) by {
            assert(s2.open[k] == s.open[k]);
        }
        assert(entry_coords(s2, s.open.len() as int) == node.coords);
    }
    lemma_count_push(open_coords(s), node.coords, s.closed);
    s2
}

/// Once all neighbours of the expanded cell are dealt with, the expansion of
/// the node is complete and the search is ready for the next one.
proof fn lemma_expanded<T: IsTraversable>(
    grid: &Grid2D<T>,
    start: (usize, usize),
    end: (usize, usize),
    s: Search,
    idx: int,
    nbrs: Seq<(usize, usize, &T)>,
) -> (s2: Search)
    requires
        expanding(grid, start, end, s, idx, nbrs, nbrs.len() as int),
        forall|n: (usize, usize)|
            grid.in_bounds(n) && adjacent(s.nodes[idx].coords, n) ==> #[trigger] lists(nbrs, n),
    ensures
        s2.nodes == s.nodes,
        s2.open == s.open,
        s2.closed == s.closed,
        open_coords(s2) == open_coords(s),
        inv(grid, start, end, s2),
{
    let cur = s.nodes[idx].coords;
    let g = s.nodes[idx].g_cost as int;
    let s2 = Search {
        nodes: s.nodes,
        open: s.open,
        closed: s.closed,
        best: s.best,
        expanded: s.expanded.insert(idx),
    };
    assert forall|n: (usize, usize)|
        #[trigger] adjacent(cur, n) && grid.in_bounds(n) && grid.cell(n).traversable()
            && !s.closed.contains(n) implies reached(s2, n, g + manhattan(cur, n)) by {
        assert(lists(nbrs, n));
        let j = choose|j: int|
            0 <= j < nbrs.len() && (#[trigger] nbrs[j]).0 == n.0 && nbrs[j].1 == n.1;
        assert((nbrs[j].0, nbrs[j].1) == n);
        assert(reached(s, n, g + manhattan(cur, n)));
        let k = choose|k: int|
            0 <= k < s.open.len() && #[trigger] entry_coords(s, k) == n && entry_g(s, k) <= g
                + manhattan(cur, n);
        assert(entry_coords(s2, k) == n);
    }
    assert forall|c: (usize, usize)| #[trigger] s2.closed.contains(c) implies sound_bound(
        grid,
        start,
        s2,
        c,
    ) by {
        assert(sound_bound(grid, start, s, c));
    }
    if !s2.closed.contains(start) {
        let k = choose|k: int|
            0 <= k < s.open.len() && #[trigger] entry_coords(s, k) == start && entry_g(s, k) <= 0;
        assert(entry_coords(s2, k) == start);
    }
    assert forall|i: int| 0 <= i < s2.nodes.len() implies #[trigger] keeps_clear(s2.nodes, i) by {
        assert(keeps_clear(s.nodes, i));
    }
    assert forall|e: int| #[trigger] s2.expanded.contains(e) implies 0 <= e < s2.nodes.len()
        && s2.closed.contains(s2.nodes[e].coords) && node_covers(grid, s2, e) by {
        if e != idx {
            assert(s.expanded.contains(e));
            assert(node_covers(grid, s, e));
            assert forall|n: (usize, usize)|
                #[trigger] adjacent(s2.nodes[e].coords, n) && grid.in_bounds(n) && grid.cell(
                    n,
                ).traversable() && !s2.closed.contains(n) implies reached(
                s2,
                n,
                s2.nodes[e].g_cost + manhattan(s2.nodes[e].coords, n),
            ) by {
                let b = s.nodes[e].g_cost + manhattan(s.nodes[e].coords, n);
                assert(reached(s, n, b));
                let k = choose|k: int|
                    0 <= k < s.open.len() && #[trigger] entry_coords(s, k) == n && entry_g(s, k)
                        <= b;
                assert(entry_coords(s2, k) == n);
            }
        }
    }
    assert forall|c: (usize, usize)| #[trigger] s2.closed.contains(c) implies covers(
        grid,
        s2,
        c,
    ) by {
        assert forall|n: (usize, usize)|
            #[trigger] adjacent(c, n) && grid.in_bounds(n) && grid.cell(n).traversable()
                && !s2.closed.contains(n) implies reached(
            s2,
            n,
            s2.best[c] + manhattan(c, n),
        ) by {
            if c != cur || s.best[cur] != g {
                assert(covers(grid, s, c));
                let b = s.best[c] + manhattan(c, n);
                assert(reached(s, n, b));
                let k = choose|k: int|
                    0 <= k < s.open.len() && #[trigger] entry_coords(s, k) == n && entry_g(s, k)
                        <= b;
                assert(entry_coords(s2, k) == n);
            }
        }
    }
    s2
}

} // verus!
