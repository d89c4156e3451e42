//! A* path finding on the four-connected grid of walkable cells.

use std::collections::{HashMap, HashSet};
use vstd::prelude::*;

verus! {

broadcast use vstd::std_specs::hash::group_hash_axioms;

/// A cell of the map in integer world coordinates.
#[derive(Clone, Copy, Debug, PartialEq, Eq, Structural)]
pub struct Node {
    pub x: i32,
    pub y: i32,
}

/// Absolute value of a mathematical integer.
pub open spec fn abs(v: int) -> int {
    if v < 0 { -v } else { v }
}

/// Manhattan distance between two cells.
pub open spec fn manhattan_dist(a: Node, b: Node) -> int {
    abs(a.x - b.x) + abs(a.y - b.y)
}

/// The four cells that share a side with `n`, in the order right, left, up, down.
pub open spec fn neighbor_seq(n: Node) -> Seq<Node> {
    seq![
        Node { x: (n.x + 1) as i32, y: n.y },
        Node { x: (n.x - 1) as i32, y: n.y },
        Node { x: n.x, y: (n.y + 1) as i32 },
        Node { x: n.x, y: (n.y - 1) as i32 },
    ]
}

/// Both coordinates of `n` leave room for a step in every direction.
pub open spec fn steppable(n: Node) -> bool {
    i32::MIN < n.x < i32::MAX && i32::MIN < n.y < i32::MAX
}

impl Node {
    pub fn new(x: i32, y: i32) -> (n: Node)
        ensures
            n.x == x,
            n.y == y,
    {
        Node { x, y }
    }

    /// Heuristic of the search: Manhattan distance to `other`.
    pub fn manhattan(self, other: Self) -> (d: i32)
        requires
            manhattan_dist(self, other) <= i32::MAX,
        ensures
            d == manhattan_dist(self, other),
    {
        let dx: i32 = if self.x >= other.x { self.x - other.x } else { other.x - self.x };
        let dy: i32 = if self.y >= other.y { self.y - other.y } else { other.y - self.y };
        dx + dy
    }

    /// The four side neighbours (right, left, up, down).
    pub fn neighbors(self) -> (r: [Node; 4])
        requires
            steppable(self),
        ensures
            r@ == neighbor_seq(self),
    {
        let r = [
            Node::new(self.x + 1, self.y),
            Node::new(self.x - 1, self.y),
            Node::new(self.x, self.y + 1),
            Node::new(self.x, self.y - 1),
        ];
        assert(r@ =~= neighbor_seq(self));
        r
    }
}

/// Two cells share a side.
pub open spec fn adjacent(a: Node, b: Node) -> bool {
    manhattan_dist(a, b) == 1
}

/// `p` is a non-empty walk through `w`: every cell is walkable and
/// consecutive cells share a side.
pub open spec fn is_walk(w: Set<Node>, p: Seq<Node>) -> bool {
    &&& p.len() >= 1
    &&& forall|i: int| 0 <= i < p.len() ==> w.contains(#[trigger] p[i])
    &&& forall|i: int| #![trigger p[i], p[i + 1]] 0 <= i < p.len() - 1 ==> adjacent(p[i], p[i + 1])
}

/// `p` is a walk through `w` from `s` to `g`.
pub open spec fn is_walk_between(w: Set<Node>, p: Seq<Node>, s: Node, g: Node) -> bool {
    &&& is_walk(w, p)
    &&& p[0] == s
    &&& p[p.len() - 1] == g
}

/// Some walk through `w` leads from `s` to `g`.
pub open spec fn reachable(w: Set<Node>, s: Node, g: Node) -> bool {
    exists|p: Seq<Node>| is_walk_between(w, p, s, g)
}

/// The inputs on which the search does its arithmetic without overflow:
/// every walkable cell can step in all four directions and its Manhattan
/// distance to the goal fits an `i32`.
pub open spec fn search_domain(w: Set<Node>, goal: Node) -> bool {
    forall|n: Node| #[trigger] w.contains(n) ==> steppable(n) && manhattan_dist(n, goal) <= i32::MAX
}

/// The integer that encodes a cell as a hash key.
pub open spec fn raw_key(n: Node) -> int {
    (n.x + 2147483648) * 4294967296 + (n.y + 2147483648)
}

/// Hash key of a cell: both coordinates packed into one `u64`.
pub open spec fn cell_key(n: Node) -> u64 {
    raw_key(n) as u64
}

proof fn lemma_raw_key_range(n: Node)
    ensures
        0 <= raw_key(n) <= u64::MAX,
        cell_key(n) as int == raw_key(n),
{
    let a: int = n.x + 2147483648;
    let b: int = n.y + 2147483648;
    assert(0 <= a * 4294967296 + b <= 18446744073709551615) by (nonlinear_arith)
        requires
            0 <= a < 4294967296,
            0 <= b < 4294967296,
    ;
}

/// Distinct cells have distinct keys.
pub(crate) proof fn lemma_key_injective(m: Node, n: Node)
    requires
        cell_key(m) == cell_key(n),
    ensures
        m == n,
{
    lemma_raw_key_range(m);
    lemma_raw_key_range(n);
    let a: int = m.x + 2147483648;
    let b: int = m.y + 2147483648;
    let c: int = n.x + 2147483648;
    let d: int = n.y + 2147483648;
    assert(a == c && b == d) by (nonlinear_arith)
        requires
            0 <= b < 4294967296,
            0 <= d < 4294967296,
            a * 4294967296 + b == c * 4294967296 + d,
    ;
}

pub(crate) fn key_of(n: Node) -> (k: u64)
    ensures
        k == cell_key(n),
{
    proof {
        lemma_raw_key_range(n);
    }
    let a: u64 = (n.x as i64 + 2147483648i64) as u64;
    let b: u64 = (n.y as i64 + 2147483648i64) as u64;
    assert(a * 4294967296 + b <= u64::MAX) by (nonlinear_arith)
        requires
            a < 4294967296,
            b < 4294967296,
    ;
    a * 4294967296 + b
}

/// The cell whose hash key is `k`.
pub(crate) fn node_of_key(k: u64) -> (n: Node)
    ensures
        cell_key(n) == k,
{
    let a: u64 = k / 4294967296;
    let b: u64 = k % 4294967296;
    let x: i32 = (a as i64 - 2147483648i64) as i32;
    let y: i32 = (b as i64 - 2147483648i64) as i32;
    let n = Node { x, y };
    proof {
        lemma_raw_key_range(n);
        assert(a * 4294967296 + b == k) by (nonlinear_arith)
            requires
                a == k / 4294967296,
                b == k % 4294967296,
        ;
    }
    n
}

/// The set of cells on which shoppers may walk.
pub struct Walkable {
    cells: HashSet<u64>,
}

impl View for Walkable {
    type V = Set<Node>;

    closed spec fn view(&self) -> Set<Node> {
        Set::new(|n: Node| self.cells@.contains(cell_key(n)))
    }
}

impl Walkable {
    #[verifier::type_invariant]
    spec fn finite_cells(self) -> bool {
        self.cells@.finite()
    }

    /// An empty set of cells.
    pub fn new() -> (w: Walkable)
        ensures
            w@ == Set::<Node>::empty(),
    {
        let w = Walkable { cells: HashSet::new() };
        assert(w@ =~= Set::<Node>::empty());
        w
    }

    /// Adds a cell.
    pub fn insert(&mut self, n: Node)
        ensures
            final(self)@ == old(self)@.insert(n),
    {
        proof {
            use_type_invariant(&*self);
        }
        let k = key_of(n);
        let mut cells: HashSet<u64> = HashSet::new();
        std::mem::swap(&mut cells, &mut self.cells);
        cells.insert(k);
        self.cells = cells;
        proof {
            assert forall|m: Node| #[trigger] self@.contains(m) == old(self)@.insert(n).contains(m) by {
                if cell_key(m) == k {
                    lemma_key_injective(m, n);
                }
            }
            assert(self@ =~= old(self)@.insert(n));
        }
    }

    /// Whether `n` is walkable.
    pub fn contains(&self, n: Node) -> (b: bool)
        ensures
            b == self@.contains(n),
    {
        self.cells.contains(&key_of(n))
    }
}

// ---------------------------------------------------------------------
//  Search state: best known path lengths (`g`), predecessor links
//  (`came`), expanded cells (`closed`) and the open list of
//  (estimated cost, cell) entries.
// ---------------------------------------------------------------------

/// A cost has been recorded for `n`.
pub open spec fn in_s(g: Map<u64, u64>, n: Node) -> bool {
    g.contains_key(cell_key(n))
}

/// The recorded cost of `n`.
pub open spec fn gv(g: Map<u64, u64>, n: Node) -> int {
    g[cell_key(n)] as int
}

/// Estimated total cost of a route through `n`.
pub open spec fn fcost(g: Map<u64, u64>, n: Node, goal: Node) -> int {
    gv(g, n) + manhattan_dist(n, goal)
}

/// The open list holds an entry for `n` with its current estimate.
pub open spec fn live(open: Seq<(u128, Node)>, g: Map<u64, u64>, n: Node, goal: Node) -> bool {
    exists|i: int| 0 <= i < open.len() && open[i].1 == n && open[i].0 == fcost(g, n, goal)
}

/// Predecessor links lead back to `start` through walkable cells with
/// strictly decreasing cost.
pub open spec fn parents_ok(w: Set<Node>, start: Node, g: Map<u64, u64>, came: Map<u64, Node>) -> bool {
    &&& in_s(g, start)
    &&& gv(g, start) == 0
    &&& !came.contains_key(cell_key(start))
    &&& forall|n: Node| #[trigger] in_s(g, n) ==> w.contains(n)
    &&& forall|n: Node|
        #[trigger] in_s(g, n) && n != start ==> {
            &&& came.contains_key(cell_key(n))
            &&& in_s(g, came[cell_key(n)])
            &&& adjacent(came[cell_key(n)], n)
            &&& gv(g, came[cell_key(n)]) < gv(g, n)
        }
}

/// Every walkable side neighbour of an expanded cell (other than `exempt`,
/// the cell being expanded) has a recorded cost at most one above the
/// expanded cell's.
pub open spec fn closed_expanded(
    w: Set<Node>,
    g: Map<u64, u64>,
    closed: Set<u64>,
    exempt: Option<Node>,
) -> bool {
    forall|n: Node, m: Node|
        #![trigger closed.contains(cell_key(n)), in_s(g, m)]
        closed.contains(cell_key(n)) && Some(n) != exempt && w.contains(m) && adjacent(n, m) ==> in_s(
            g,
            m,
        ) && gv(g, m) <= gv(g, n) + 1
}

/// No walk from `start` to `n` has fewer than `d` steps.
#[verifier::opaque]
pub open spec fn no_shorter_walk(w: Set<Node>, start: Node, n: Node, d: int) -> bool {
    forall|q: Seq<Node>| #[trigger] is_walk_between(w, q, start, n) ==> d <= q.len() - 1
}

/// Some walk from `start` to `n` has at most `d` steps.
#[verifier::opaque]
pub open spec fn walk_within(w: Set<Node>, start: Node, n: Node, d: int) -> bool {
    exists|q: Seq<Node>| #[trigger] is_walk_between(w, q, start, n) && q.len() - 1 <= d
}

/// Invariant of the search. `exempt` is the cell being expanded, whose
/// neighbours are not all recorded yet; `pending` is a cell just taken off
/// the open list, which may have lost its entry there.
#[verifier::opaque]
pub open spec fn search_inv(
    w: Set<Node>,
    cells: Set<u64>,
    start: Node,
    goal: Node,
    g: Map<u64, u64>,
    came: Map<u64, Node>,
    closed: Set<u64>,
    open: Seq<(u128, Node)>,
    exempt: Option<Node>,
    pending: Option<Node>,
) -> bool {
    &&& w == Set::new(|n: Node| cells.contains(cell_key(n)))
    &&& parents_ok(w, start, g, came)
    &&& forall|n: Node| #[trigger] in_s(g, n) ==> gv(g, n) <= closed.len()
    &&& forall|n: Node| #[trigger] closed.contains(cell_key(n)) ==> in_s(g, n) && n != goal
    &&& closed_expanded(w, g, closed, exempt)
    &&& forall|n: Node|
        #[trigger] in_s(g, n) ==> closed.contains(cell_key(n)) || live(open, g, n, goal) || Some(n)
            == pending
    &&& forall|i: int| 0 <= i < open.len() ==> in_s(g, #[trigger] open[i].1)
    &&& forall|i: int| 0 <= i < open.len() ==> #[trigger] open[i].0 >= fcost(g, open[i].1, goal)
    &&& forall|n: Node| #[trigger] in_s(g, n) ==> walk_within(w, start, n, gv(g, n))
    &&& forall|n: Node|
        #[trigger] closed.contains(cell_key(n)) ==> no_shorter_walk(w, start, n, gv(g, n))
    &&& closed.subset_of(cells)
    &&& closed.finite()
    &&& cells.finite()
    &&& closed.len() <= cells.len()
    &&& cells.len() <= usize::MAX
}

proof fn lemma_neighbors_adjacent(n: Node)
    requires
        steppable(n),
    ensures
        forall|i: int| 0 <= i < 4 ==> adjacent(n, #[trigger] neighbor_seq(n)[i]),
{
}

/// A side neighbour is one of the four cells that `neighbors` lists.
proof fn lemma_adjacent_is_neighbor(n: Node, m: Node)
    requires
        steppable(n),
        adjacent(n, m),
    ensures
        m == neighbor_seq(n)[0] || m == neighbor_seq(n)[1] || m == neighbor_seq(n)[2] || m
            == neighbor_seq(n)[3],
{
}

/// A set that holds the first cell of a walk and every walkable side
/// neighbour of its members holds the whole walk.
proof fn lemma_walk_stays(w: Set<Node>, g: Map<u64, u64>, p: Seq<Node>)
    requires
        is_walk(w, p),
        in_s(g, p[0]),
        forall|n: Node, m: Node|
            #![trigger in_s(g, n), in_s(g, m)]
            in_s(g, n) && w.contains(m) && adjacent(n, m) ==> in_s(g, m),
    ensures
        in_s(g, p[p.len() - 1]),
    decreases p.len(),
{
    if p.len() > 1 {
        let q = p.drop_last();
        assert(is_walk(w, q)) by {
            assert forall|i: int| #![trigger q[i], q[i + 1]] 0 <= i < q.len() - 1 implies adjacent(
                q[i],
                q[i + 1],
            ) by {
                assert(q[i] == p[i] && q[i + 1] == p[i + 1]);
            }
        }
        lemma_walk_stays(w, g, q);
        let k = p.len() - 2;
        assert(adjacent(p[k], p[k + 1]));
        assert(w.contains(p[k + 1]));
        assert(in_s(g, p[k]));
    }
}

/// Removing one entry of the open list keeps the live entry of every cell
/// whose live entry it was not.
proof fn lemma_remove_keeps_live(open: Seq<(u128, Node)>, g: Map<u64, u64>, goal: Node, idx: int, n: Node)
    requires
        0 <= idx < open.len(),
        live(open, g, n, goal),
        !(open[idx].1 == n && open[idx].0 == fcost(g, n, goal)),
    ensures
        live(open.remove(idx), g, n, goal),
{
    let i = choose|i: int| 0 <= i < open.len() && open[i].1 == n && open[i].0 == fcost(g, n, goal);
    let r = open.remove(idx);
    if i < idx {
        assert(r[i] == open[i]);
    } else {
        assert(r[i - 1] == open[i]);
    }
}

proof fn lemma_search_init(
    w: Set<Node>,
    cells: Set<u64>,
    start: Node,
    goal: Node,
    g: Map<u64, u64>,
    came: Map<u64, Node>,
    closed: Set<u64>,
    open: Seq<(u128, Node)>,
)
    requires
        w.contains(start),
        w == Set::new(|n: Node| cells.contains(cell_key(n))),
        cells.finite(),
        cells.len() <= usize::MAX,
        g == Map::<u64, u64>::empty().insert(cell_key(start), 0),
        came == Map::<u64, Node>::empty(),
        closed == Set::<u64>::empty(),
        open == seq![(manhattan_dist(start, goal) as u128, start)],
        manhattan_dist(start, goal) <= i32::MAX,
    ensures
        search_inv(w, cells, start, goal, g, came, closed, open, None, None),
{
    reveal(search_inv);
    assert forall|n: Node| #[trigger] in_s(g, n) implies n == start by {
        lemma_key_eq_iff(n, start);
    }
    assert(live(open, g, start, goal)) by {
        assert(open[0].1 == start && open[0].0 == fcost(g, start, goal));
    }
    assert(walk_within(w, start, start, 0)) by {
        reveal(walk_within);
        assert(is_walk_between(w, seq![start], start, start));
    }
}

/// With the open list empty, the recorded cells hold `start` and every
/// walkable neighbour of their members, but not `goal`.
proof fn lemma_search_exhausted(
    w: Set<Node>,
    cells: Set<u64>,
    start: Node,
    goal: Node,
    g: Map<u64, u64>,
    came: Map<u64, Node>,
    closed: Set<u64>,
    open: Seq<(u128, Node)>,
)
    requires
        search_inv(w, cells, start, goal, g, came, closed, open, None, None),
        open.len() == 0,
    ensures
        !reachable(w, start, goal),
{
    reveal(search_inv);
    assert forall|n: Node, m: Node|
        #![trigger in_s(g, n), in_s(g, m)]
        in_s(g, n) && w.contains(m) && adjacent(n, m) implies in_s(g, m) by {
        if !closed.contains(cell_key(n)) {
            assert(live(open, g, n, goal));
        }
        assert(closed.contains(cell_key(n)));
    }
    if in_s(g, goal) {
        if !closed.contains(cell_key(goal)) {
            assert(live(open, g, goal, goal));
        }
        assert(false);
    }
    if reachable(w, start, goal) {
        let p = choose|p: Seq<Node>| is_walk_between(w, p, start, goal);
        lemma_walk_stays(w, g, p);
    }
}

/// Taking the entry at `idx` off the open list.
proof fn lemma_search_pop(
    w: Set<Node>,
    cells: Set<u64>,
    start: Node,
    goal: Node,
    g: Map<u64, u64>,
    came: Map<u64, Node>,
    closed: Set<u64>,
    oo: Seq<(u128, Node)>,
    idx: int,
)
    requires
        search_inv(w, cells, start, goal, g, came, closed, oo, None, None),
        0 <= idx < oo.len(),
        forall|j: int| 0 <= j < oo.len() ==> oo[idx].0 <= #[trigger] oo[j].0,
    ensures
        in_s(g, oo[idx].1),
        oo[idx].0 >= fcost(g, oo[idx].1, goal),
        oo[idx].1 == goal ==> no_shorter_walk(w, start, goal, gv(g, goal)),
        !closed.contains(cell_key(oo[idx].1)) && oo[idx].0 <= fcost(g, oo[idx].1, goal)
            ==> no_shorter_walk(w, start, oo[idx].1, gv(g, oo[idx].1)),
        parents_ok(w, start, g, came),
        gv(g, oo[idx].1) <= closed.len(),
        closed.len() <= cells.len(),
        search_inv(w, cells, start, goal, g, came, closed, oo.remove(idx), None, Some(oo[idx].1)),
        closed.contains(cell_key(oo[idx].1)) || oo[idx].0 > fcost(g, oo[idx].1, goal) ==> search_inv(
            w,
            cells,
            start,
            goal,
            g,
            came,
            closed,
            oo.remove(idx),
            None,
            None,
        ),
{
    reveal(search_inv);
    let open = oo.remove(idx);
    let node = oo[idx].1;
    assert forall|n: Node|
        #[trigger] in_s(g, n) && n != node && !closed.contains(cell_key(n)) implies live(
        open,
        g,
        n,
        goal,
    ) by {
        lemma_remove_keeps_live(oo, g, goal, idx, n);
    }
    assert forall|i: int| 0 <= i < open.len() implies in_s(g, #[trigger] open[i].1) by {
        if i < idx {
            assert(open[i] == oo[i]);
        } else {
            assert(open[i] == oo[i + 1]);
        }
    }
    if !closed.contains(cell_key(node)) && oo[idx].0 > fcost(g, node, goal) {
        lemma_remove_keeps_live(oo, g, goal, idx, node);
    }
    if !closed.contains(cell_key(node)) {
        lemma_pop_bound(w, cells, start, goal, g, came, closed, oo, idx);
        reveal(no_shorter_walk);
        assert(manhattan_dist(goal, goal) == 0);
    }
}

/// The cell at `idx` is expanded, or its index is the first unexpanded one
/// from `j` on.
proof fn lemma_first_unexpanded(closed: Set<u64>, q: Seq<Node>, j: int) -> (k: int)
    requires
        0 <= j < q.len(),
        !closed.contains(cell_key(q[q.len() - 1])),
        forall|i: int| 0 <= i < j ==> closed.contains(cell_key(#[trigger] q[i])),
    ensures
        j <= k < q.len(),
        !closed.contains(cell_key(q[k])),
        forall|i: int| 0 <= i < k ==> closed.contains(cell_key(#[trigger] q[i])),
    decreases q.len() - j,
{
    if !closed.contains(cell_key(q[j])) {
        j
    } else {
        lemma_first_unexpanded(closed, q, j + 1)
    }
}

/// A prefix of a walk is a walk.
proof fn lemma_walk_prefix(w: Set<Node>, q: Seq<Node>, k: int)
    requires
        is_walk(w, q),
        1 <= k <= q.len(),
    ensures
        is_walk(w, q.subrange(0, k)),
{
    let r = q.subrange(0, k);
    assert forall|i: int| #![trigger r[i], r[i + 1]] 0 <= i < r.len() - 1 implies adjacent(
        r[i],
        r[i + 1],
    ) by {
        assert(r[i] == q[i] && r[i + 1] == q[i + 1]);
    }
}

/// The Manhattan distance to the goal drops by at most one per step of a walk.
proof fn lemma_h_along_walk(w: Set<Node>, q: Seq<Node>, i: int, goal: Node)
    requires
        is_walk(w, q),
        0 <= i < q.len(),
    ensures
        manhattan_dist(q[i], goal) <= (q.len() - 1 - i) + manhattan_dist(q[q.len() - 1], goal),
    decreases q.len() - i,
{
    if i < q.len() - 1 {
        lemma_h_along_walk(w, q, i + 1, goal);
        assert(adjacent(q[i], q[i + 1]));
    }
}

/// Along any walk from `start`, the first unexpanded cell has a recorded
/// cost no larger than its position on the walk.
proof fn lemma_frontier_bound(
    w: Set<Node>,
    cells: Set<u64>,
    start: Node,
    goal: Node,
    g: Map<u64, u64>,
    came: Map<u64, Node>,
    closed: Set<u64>,
    open: Seq<(u128, Node)>,
    q: Seq<Node>,
) -> (k: int)
    requires
        search_inv(w, cells, start, goal, g, came, closed, open, None, None),
        is_walk(w, q),
        q[0] == start,
        !closed.contains(cell_key(q[q.len() - 1])),
    ensures
        0 <= k < q.len(),
        !closed.contains(cell_key(q[k])),
        in_s(g, q[k]),
        gv(g, q[k]) <= k,
{
    let k = lemma_first_unexpanded(closed, q, 0);
    if k > 0 {
        let i = k - 1;
        let p = q[i];
        assert(closed.contains(cell_key(p)));
        lemma_walk_prefix(w, q, k);
        let r = q.subrange(0, k);
        assert(r[r.len() - 1] == p);
        lemma_inv_basics(w, cells, start, goal, g, came, closed, open, None, None, p);
        reveal(no_shorter_walk);
        assert(is_walk_between(w, r, start, p));
        assert(adjacent(q[i], q[i + 1]));
        assert(w.contains(q[k]));
        lemma_inv_expanded_step(w, cells, start, goal, g, came, closed, open, p, q[k]);
    } else {
        lemma_inv_start(w, cells, start, goal, g, came, closed, open);
    }
    k
}

proof fn lemma_inv_expanded_step(
    w: Set<Node>,
    cells: Set<u64>,
    start: Node,
    goal: Node,
    g: Map<u64, u64>,
    came: Map<u64, Node>,
    closed: Set<u64>,
    open: Seq<(u128, Node)>,
    n: Node,
    m: Node,
)
    requires
        search_inv(w, cells, start, goal, g, came, closed, open, None, None),
        closed.contains(cell_key(n)),
        w.contains(m),
        adjacent(n, m),
    ensures
        in_s(g, m),
        gv(g, m) <= gv(g, n) + 1,
{
    reveal(search_inv);
    assert(closed_expanded(w, g, closed, None));
    assert(in_s(g, m));
}

proof fn lemma_inv_start(
    w: Set<Node>,
    cells: Set<u64>,
    start: Node,
    goal: Node,
    g: Map<u64, u64>,
    came: Map<u64, Node>,
    closed: Set<u64>,
    open: Seq<(u128, Node)>,
)
    requires
        search_inv(w, cells, start, goal, g, came, closed, open, None, None),
    ensures
        in_s(g, start),
        gv(g, start) == 0,
{
    reveal(search_inv);
}

/// The least estimated cost on the open list bounds every walk to the
/// popped cell.
proof fn lemma_pop_bound(
    w: Set<Node>,
    cells: Set<u64>,
    start: Node,
    goal: Node,
    g: Map<u64, u64>,
    came: Map<u64, Node>,
    closed: Set<u64>,
    oo: Seq<(u128, Node)>,
    idx: int,
)
    requires
        search_inv(w, cells, start, goal, g, came, closed, oo, None, None),
        0 <= idx < oo.len(),
        forall|j: int| 0 <= j < oo.len() ==> oo[idx].0 <= #[trigger] oo[j].0,
        !closed.contains(cell_key(oo[idx].1)),
    ensures
        forall|q: Seq<Node>|
            #[trigger] is_walk_between(w, q, start, oo[idx].1) ==> gv(g, oo[idx].1) <= q.len() - 1
                || oo[idx].0 <= q.len() - 1 + manhattan_dist(oo[idx].1, goal),
{
    let node = oo[idx].1;
    assert forall|q: Seq<Node>| #[trigger] is_walk_between(w, q, start, node) implies gv(g, node)
        <= q.len() - 1 || oo[idx].0 <= q.len() - 1 + manhattan_dist(node, goal) by {
        let k = lemma_frontier_bound(w, cells, start, goal, g, came, closed, oo, q);
        if q[k] != node {
            reveal(search_inv);
            assert(live(oo, g, q[k], goal));
            let i = choose|i: int| 0 <= i < oo.len() && oo[i].1 == q[k] && oo[i].0 == fcost(g, q[k], goal);
            assert(oo[idx].0 <= oo[i].0);
            lemma_h_along_walk(w, q, k, goal);
        }
    }
}

/// Marking the popped cell `node` as expanded.
proof fn lemma_search_close(
    w: Set<Node>,
    cells: Set<u64>,
    start: Node,
    goal: Node,
    g: Map<u64, u64>,
    came: Map<u64, Node>,
    oc: Set<u64>,
    open: Seq<(u128, Node)>,
    node: Node,
)
    requires
        search_inv(w, cells, start, goal, g, came, oc, open, None, Some(node)),
        in_s(g, node),
        node != goal,
        !oc.contains(cell_key(node)),
        no_shorter_walk(w, start, node, gv(g, node)),
    ensures
        search_inv(w, cells, start, goal, g, came, oc.insert(cell_key(node)), open, Some(node), None),
        oc.insert(cell_key(node)).contains(cell_key(node)),
        gv(g, node) < oc.insert(cell_key(node)).len(),
        oc.insert(cell_key(node)).len() == oc.len() + 1,
        oc.insert(cell_key(node)).len() <= cells.len(),
{
    reveal(search_inv);
    let closed = oc.insert(cell_key(node));
    assert(w.contains(node));
    assert(closed.len() == oc.len() + 1);
    assert(closed.subset_of(cells));
    vstd::set_lib::lemma_len_subset(closed, cells);
    assert forall|n: Node| #[trigger] closed.contains(cell_key(n)) implies in_s(g, n) && n != goal by {
        lemma_key_eq_iff(n, node);
    }
    assert(closed_expanded(w, g, closed, Some(node))) by {
        assert forall|n: Node, m: Node|
            #![trigger closed.contains(cell_key(n)), in_s(g, m)]
            closed.contains(cell_key(n)) && Some(n) != Some(node) && w.contains(m) && adjacent(
                n,
                m,
            ) implies in_s(g, m) && gv(g, m) <= gv(g, n) + 1 by {
            lemma_key_eq_iff(n, node);
            assert(oc.contains(cell_key(n)));
        }
    }
    assert forall|n: Node| #[trigger] closed.contains(cell_key(n)) implies no_shorter_walk(
        w,
        start,
        n,
        gv(g, n),
    ) by {
        lemma_key_eq_iff(n, node);
    }
}

/// After all four neighbours of `node` are relaxed its expansion is complete.
proof fn lemma_search_expanded(
    w: Set<Node>,
    cells: Set<u64>,
    start: Node,
    goal: Node,
    g: Map<u64, u64>,
    came: Map<u64, Node>,
    closed: Set<u64>,
    open: Seq<(u128, Node)>,
    node: Node,
)
    requires
        search_inv(w, cells, start, goal, g, came, closed, open, Some(node), None),
        steppable(node),
        forall|i: int|
            0 <= i < 4 && w.contains(neighbor_seq(node)[i]) ==> in_s(g, #[trigger] neighbor_seq(node)[i])
                && gv(g, neighbor_seq(node)[i]) <= gv(g, node) + 1,
    ensures
        search_inv(w, cells, start, goal, g, came, closed, open, None, None),
        closed.len() <= cells.len(),
{
    reveal(search_inv);
    assert(closed_expanded(w, g, closed, None)) by {
        assert forall|n: Node, m: Node|
            #![trigger closed.contains(cell_key(n)), in_s(g, m)]
            closed.contains(cell_key(n)) && Some(n) != None::<Node> && w.contains(m) && adjacent(
                n,
                m,
            ) implies in_s(g, m) && gv(g, m) <= gv(g, n) + 1 by {
            if n == node {
                lemma_adjacent_is_neighbor(node, m);
                assert(in_s(g, neighbor_seq(node)[0]) || !w.contains(neighbor_seq(node)[0]));
                assert(in_s(g, neighbor_seq(node)[1]) || !w.contains(neighbor_seq(node)[1]));
                assert(in_s(g, neighbor_seq(node)[2]) || !w.contains(neighbor_seq(node)[2]));
                assert(in_s(g, neighbor_seq(node)[3]) || !w.contains(neighbor_seq(node)[3]));
            }
        }
    }
}

/// Facts that the invariant gives about one recorded cell.
proof fn lemma_inv_basics(
    w: Set<Node>,
    cells: Set<u64>,
    start: Node,
    goal: Node,
    g: Map<u64, u64>,
    came: Map<u64, Node>,
    closed: Set<u64>,
    open: Seq<(u128, Node)>,
    exempt: Option<Node>,
    pending: Option<Node>,
    n: Node,
)
    requires
        search_inv(w, cells, start, goal, g, came, closed, open, exempt, pending),
        closed.contains(cell_key(n)) || in_s(g, n),
    ensures
        in_s(g, n),
        w.contains(n),
        gv(g, n) <= closed.len(),
        closed.len() <= cells.len(),
        cells.len() <= usize::MAX,
        walk_within(w, start, n, gv(g, n)),
        closed.contains(cell_key(n)) ==> no_shorter_walk(w, start, n, gv(g, n)),
{
    reveal(search_inv);
}

/// Extending a walk by one side step.
proof fn lemma_walk_push(w: Set<Node>, q: Seq<Node>, start: Node, a: Node, b: Node)
    requires
        is_walk_between(w, q, start, a),
        w.contains(b),
        adjacent(a, b),
    ensures
        is_walk_between(w, q.push(b), start, b),
{
    let r = q.push(b);
    assert forall|i: int| 0 <= i < r.len() implies w.contains(#[trigger] r[i]) by {
        if i < q.len() {
            assert(r[i] == q[i]);
        }
    }
    assert forall|i: int| #![trigger r[i], r[i + 1]] 0 <= i < r.len() - 1 implies adjacent(
        r[i],
        r[i + 1],
    ) by {
        if i < q.len() - 1 {
            assert(r[i] == q[i] && r[i + 1] == q[i + 1]);
        } else {
            assert(r[i] == a && r[i + 1] == b);
        }
    }
}

/// Recording the route to `nb` through `cur` keeps the invariant.
proof fn lemma_relax_update(
    w: Set<Node>,
    cells: Set<u64>,
    start: Node,
    goal: Node,
    og: Map<u64, u64>,
    oc: Map<u64, Node>,
    closed: Set<u64>,
    oo: Seq<(u128, Node)>,
    cur: Node,
    nb: Node,
)
    requires
        search_inv(w, cells, start, goal, og, oc, closed, oo, Some(cur), None),
        closed.contains(cell_key(cur)),
        gv(og, cur) < closed.len(),
        adjacent(cur, nb),
        w.contains(nb),
        gv(og, cur) + 1 <= u64::MAX,
        !in_s(og, nb) || gv(og, cur) + 1 < gv(og, nb),
        manhattan_dist(nb, goal) <= i32::MAX,
    ensures
        ({
            let t = (gv(og, cur) + 1) as u64;
            let ng = og.insert(cell_key(nb), t);
            let nc = oc.insert(cell_key(nb), cur);
            let no = oo.push(((t + manhattan_dist(nb, goal)) as u128, nb));
            &&& search_inv(w, cells, start, goal, ng, nc, closed, no, Some(cur), None)
            &&& in_s(ng, nb)
            &&& gv(ng, nb) <= gv(og, cur) + 1
            &&& forall|n: Node| in_s(og, n) ==> #[trigger] in_s(ng, n) && gv(ng, n) <= gv(og, n)
            &&& gv(ng, cur) == gv(og, cur)
        }),
{
    reveal(search_inv);
    let t = (gv(og, cur) + 1) as u64;
    let ng = og.insert(cell_key(nb), t);
    let nc = oc.insert(cell_key(nb), cur);
    let no = oo.push(((t + manhattan_dist(nb, goal)) as u128, nb));
    lemma_key_eq_iff(nb, start);
    lemma_key_eq_iff(nb, cur);
    assert(in_s(og, cur));
    assert(nb != start);
    assert(nb != cur);
    // `nb` is not expanded: an expanded cell already has a cost no larger.
    if closed.contains(cell_key(nb)) {
        assert(walk_within(w, start, cur, gv(og, cur)));
        reveal(walk_within);
        reveal(no_shorter_walk);
        let q = choose|q: Seq<Node>| #[trigger] is_walk_between(w, q, start, cur) && q.len() - 1 <= gv(og, cur);
        lemma_walk_push(w, q, start, cur, nb);
        assert(no_shorter_walk(w, start, nb, gv(og, nb)));
        assert(is_walk_between(w, q.push(nb), start, nb));
        assert(false);
    }
    assert forall|n: Node| #[trigger] in_s(ng, n) == (in_s(og, n) || n == nb) by {
        lemma_key_eq_iff(n, nb);
    }
    assert forall|n: Node| n != nb implies #[trigger] gv(ng, n) == gv(og, n) by {
        lemma_key_eq_iff(n, nb);
    }
    assert forall|n: Node| n != nb implies #[trigger] nc[cell_key(n)] == oc[cell_key(n)]
        && nc.contains_key(cell_key(n)) == oc.contains_key(cell_key(n)) by {
        lemma_key_eq_iff(n, nb);
    }
    assert forall|n: Node| #[trigger] in_s(ng, n) && n != start implies {
        &&& nc.contains_key(cell_key(n))
        &&& in_s(ng, nc[cell_key(n)])
        &&& adjacent(nc[cell_key(n)], n)
        &&& gv(ng, nc[cell_key(n)]) < gv(ng, n)
    } by {
        if n == nb {
            assert(nc[cell_key(n)] == cur);
        } else {
            let p = oc[cell_key(n)];
            assert(in_s(og, n));
            assert(in_s(og, p));
            if p == nb {
                assert(gv(ng, p) < gv(og, p));
            } else {
                assert(gv(ng, p) == gv(og, p));
            }
        }
    }
    assert(parents_ok(w, start, ng, nc));
    assert forall|n: Node| #[trigger] in_s(ng, n) implies gv(ng, n) <= closed.len() by {
        if n != nb {
            assert(in_s(og, n));
        }
    }
    assert forall|n: Node| #[trigger] closed.contains(cell_key(n)) implies in_s(ng, n) && n != goal by {
        assert(in_s(og, n));
    }
    assert(closed_expanded(w, ng, closed, Some(cur))) by {
        assert forall|n: Node, m: Node|
            #![trigger closed.contains(cell_key(n)), in_s(ng, m)]
            closed.contains(cell_key(n)) && Some(n) != Some(cur) && w.contains(m) && adjacent(
                n,
                m,
            ) implies in_s(ng, m) && gv(ng, m) <= gv(ng, n) + 1 by {
            assert(in_s(og, m));
            assert(n != nb);
        }
    }
    assert forall|n: Node| #[trigger] in_s(ng, n) implies closed.contains(cell_key(n)) || live(
        no,
        ng,
        n,
        goal,
    ) || Some(n) == None::<Node> by {
        if n == nb {
            let i = no.len() - 1;
            assert(no[i].1 == n && no[i].0 == fcost(ng, n, goal));
        } else {
            assert(in_s(og, n));
            if !closed.contains(cell_key(n)) {
                assert(live(oo, og, n, goal));
                let i = choose|i: int| 0 <= i < oo.len() && oo[i].1 == n && oo[i].0 == fcost(og, n, goal);
                assert(no[i] == oo[i]);
                assert(fcost(ng, n, goal) == fcost(og, n, goal));
            }
        }
    }
    assert forall|i: int| 0 <= i < no.len() implies in_s(ng, #[trigger] no[i].1) && #[trigger] no[i].0
        >= fcost(ng, no[i].1, goal) by {
        if i < oo.len() {
            assert(no[i] == oo[i]);
            assert(in_s(og, oo[i].1));
            assert(oo[i].0 >= fcost(og, oo[i].1, goal));
        }
    }
    assert forall|n: Node| #[trigger] in_s(ng, n) implies walk_within(w, start, n, gv(ng, n)) by {
        if n == nb {
            assert(walk_within(w, start, cur, gv(og, cur)));
            reveal(walk_within);
            let q = choose|q: Seq<Node>| #[trigger] is_walk_between(w, q, start, cur) && q.len() - 1 <= gv(og, cur);
            lemma_walk_push(w, q, start, cur, nb);
            assert(is_walk_between(w, q.push(nb), start, nb));
        } else {
            assert(in_s(og, n));
        }
    }
    assert forall|n: Node| #[trigger] closed.contains(cell_key(n)) implies no_shorter_walk(w, start, n, gv(ng, n)) by {
        assert(n != nb);
    }
}

/// Index of an entry of least estimated cost (the first such entry).
fn min_cost_index(open: &Vec<(u128, Node)>) -> (i: usize)
    requires
        open@.len() > 0,
    ensures
        i < open@.len(),
        forall|j: int| 0 <= j < open@.len() ==> open@[i as int].0 <= #[trigger] open@[j].0,
{
    let mut best: usize = 0;
    let mut k: usize = 1;
    while k < open.len()
        invariant
            0 < k <= open@.len(),
            best < k,
            forall|j: int| 0 <= j < k ==> open@[best as int].0 <= #[trigger] open@[j].0,
        decreases open@.len() - k,
    {
        if open[k].0 < open[best].0 {
            best = k;
        }
        k = k + 1;
    }
    best
}

proof fn lemma_key_eq_iff(m: Node, n: Node)
    ensures
        (cell_key(m) == cell_key(n)) == (m == n),
{
    if cell_key(m) == cell_key(n) {
        lemma_key_injective(m, n);
    }
}

impl Walkable {
    /// Searches a shortest route from `start` to `goal` over walkable
    /// cells, stepping to side neighbours only (A* with the Manhattan
    /// heuristic). Returns `None` when `start` or `goal` is not walkable or
    /// no route connects them; otherwise the route, which begins at `start`
    /// and ends at `goal`.
    pub fn find_path(&self, start: Node, goal: Node) -> (r: Option<Vec<Node>>)
        requires
            search_domain(self@, goal),
        ensures
            r is Some <==> (self@.contains(start) && self@.contains(goal) && reachable(
                self@,
                start,
                goal,
            )),
            r matches Some(p) ==> is_walk_between(self@, p@, start, goal),
            r matches Some(p) ==> forall|q: Seq<Node>|
                #[trigger] is_walk_between(self@, q, start, goal) ==> p@.len() <= q.len(),
    {
        proof {
            use_type_invariant(self);
        }
        if !self.contains(start) || !self.contains(goal) {
            return None;
        }
        let ghost w = self@;
        let ghost cells = self.cells@;
        proof {
            assert(vstd::std_specs::hash::spec_hash_set_len(&self.cells) == cells.len());
        }
        let mut open: Vec<(u128, Node)> = Vec::new();
        let mut came: HashMap<u64, Node> = HashMap::new();
        let mut g: HashMap<u64, u64> = HashMap::new();
        let mut closed: HashSet<u64> = HashSet::new();
        let h = start.manhattan(goal);
        g.insert(key_of(start), 0);
        open.push((h as u128, start));
        proof {
            lemma_search_init(w, cells, start, goal, g@, came@, closed@, open@);
        }
        loop
            invariant
                w == self@,
                cells == self.cells@,
                search_domain(w, goal),
                w.contains(start),
                w.contains(goal),
                search_inv(w, cells, start, goal, g@, came@, closed@, open@, None, None),
                closed@.len() <= cells.len(),
            decreases cells.len() - closed@.len(), open@.len(),
        {
            if open.len() == 0 {
                proof {
                    lemma_search_exhausted(w, cells, start, goal, g@, came@, closed@, open@);
                }
                return None;
            }
            let idx = min_cost_index(&open);
            let ghost oo = open@;
            let entry = open.remove(idx);
            let cost = entry.0;
            let node = entry.1;
            proof {
                lemma_search_pop(w, cells, start, goal, g@, came@, closed@, oo, idx as int);
            }
            if node == goal {
                let p = self.reconstruct(&came, &g, start, goal);
                proof {
                    assert(reachable(w, start, goal));
                    reveal(no_shorter_walk);
                }
                return Some(p);
            }
            let nk = key_of(node);
            let gcur: u64 = match g.get(&nk) {
                Some(v) => *v,
                None => {
                    return None;
                },
            };
            let hn = node.manhattan(goal);
            if cost > gcur as u128 + hn as u128 {
                continue ;
            }
            if closed.contains(&nk) {
                continue ;
            }
            let ghost oc = closed@;
            closed.insert(nk);
            proof {
                lemma_search_close(w, cells, start, goal, g@, came@, oc, open@, node);
            }
            self.expand(start, goal, node, &mut open, &mut came, &mut g, &closed);
        }
    }

    /// Relaxes the four side neighbours of the expanded cell `node`.
    fn expand(
        &self,
        start: Node,
        goal: Node,
        node: Node,
        open: &mut Vec<(u128, Node)>,
        came: &mut HashMap<u64, Node>,
        g: &mut HashMap<u64, u64>,
        closed: &HashSet<u64>,
    )
        requires
            search_inv(
                self@,
                self.cells@,
                start,
                goal,
                old(g)@,
                old(came)@,
                closed@,
                old(open)@,
                Some(node),
                None,
            ),
            search_domain(self@, goal),
            self@.contains(node),
            closed@.contains(cell_key(node)),
            gv(old(g)@, node) < closed@.len(),
            closed@.len() <= self.cells@.len(),
        ensures
            search_inv(
                self@,
                self.cells@,
                start,
                goal,
                final(g)@,
                final(came)@,
                closed@,
                final(open)@,
                None,
                None,
            ),
    {
        let nbs = node.neighbors();
        proof {
            lemma_neighbors_adjacent(node);
        }
        let ghost g0 = g@;
        self.relax(start, goal, node, nbs[0], open, came, g, closed);
        let ghost g1 = g@;
        self.relax(start, goal, node, nbs[1], open, came, g, closed);
        let ghost g2 = g@;
        self.relax(start, goal, node, nbs[2], open, came, g, closed);
        let ghost g3 = g@;
        self.relax(start, goal, node, nbs[3], open, came, g, closed);
        proof {
            assert(self@.contains(nbs[0]) ==> in_s(g1, nbs[0]));
            assert(self@.contains(nbs[0]) ==> in_s(g2, nbs[0]));
            assert(self@.contains(nbs[0]) ==> in_s(g3, nbs[0]));
            assert(self@.contains(nbs[1]) ==> in_s(g3, nbs[1]));
            assert forall|i: int| 0 <= i < 4 && self@.contains(neighbor_seq(node)[i]) implies in_s(
                g@,
                #[trigger] neighbor_seq(node)[i],
            ) by {
                assert(neighbor_seq(node)[i] == nbs@[i]);
            }
            lemma_search_expanded(self@, self.cells@, start, goal, g@, came@, closed@, open@, node);
        }
    }

    /// Records a route to `nb` through the cell `cur` being expanded if it
    /// is shorter than the best one known.
    fn relax(
        &self,
        start: Node,
        goal: Node,
        cur: Node,
        nb: Node,
        open: &mut Vec<(u128, Node)>,
        came: &mut HashMap<u64, Node>,
        g: &mut HashMap<u64, u64>,
        closed: &HashSet<u64>,
    )
        requires
            search_inv(
                self@,
                self.cells@,
                start,
                goal,
                old(g)@,
                old(came)@,
                closed@,
                old(open)@,
                Some(cur),
                None,
            ),
            search_domain(self@, goal),
            closed@.contains(cell_key(cur)),
            gv(old(g)@, cur) < closed@.len(),
            adjacent(cur, nb),
        ensures
            search_inv(
                self@,
                self.cells@,
                start,
                goal,
                final(g)@,
                final(came)@,
                closed@,
                final(open)@,
                Some(cur),
                None,
            ),
            self@.contains(nb) ==> in_s(final(g)@, nb) && gv(final(g)@, nb) <= gv(old(g)@, cur) + 1,
            forall|n: Node|
                in_s(old(g)@, n) ==> #[trigger] in_s(final(g)@, n) && gv(final(g)@, n) <= gv(
                    old(g)@,
                    n,
                ),
            gv(final(g)@, cur) == gv(old(g)@, cur),
    {
        if !self.contains(nb) {
            return ;
        }
        let ck = key_of(cur);
        proof {
            lemma_inv_basics(self@, self.cells@, start, goal, g@, came@, closed@, open@, Some(cur), None, cur);
        }
        let gcur: u64 = match g.get(&ck) {
            Some(v) => *v,
            None => {
                return ;
            },
        };
        let tentative: u64 = gcur + 1;
        let nk = key_of(nb);
        let better: bool = match g.get(&nk) {
            Some(v) => tentative < *v,
            None => true,
        };
        if better {
            let ghost og = g@;
            let ghost oc = came@;
            let ghost oo = open@;
            came.insert(nk, cur);
            g.insert(nk, tentative);
            let h = nb.manhattan(goal);
            let f: u128 = tentative as u128 + h as u128;
            open.push((f, nb));
            proof {
                lemma_relax_update(self@, self.cells@, start, goal, og, oc, closed@, oo, cur, nb);
            }
        }
    }

    /// Follows the predecessor links back from `goal` and returns the
    /// route from `start` to `goal`.
    fn reconstruct(
        &self,
        came: &HashMap<u64, Node>,
        g: &HashMap<u64, u64>,
        start: Node,
        goal: Node,
    ) -> (p: Vec<Node>)
        requires
            parents_ok(self@, start, g@, came@),
            in_s(g@, goal),
        ensures
            is_walk_between(self@, p@, start, goal),
            p@.len() <= gv(g@, goal) + 1,
    {
        let ghost w = self@;
        let mut back: Vec<Node> = Vec::new();
        back.push(goal);
        let mut n = goal;
        loop
            invariant
                parents_ok(w, start, g@, came@),
                in_s(g@, n),
                back@.len() >= 1,
                back@[0] == goal,
                back@[back@.len() - 1] == n,
                back@.len() - 1 + gv(g@, n) <= gv(g@, goal),
                forall|i: int| 0 <= i < back@.len() ==> w.contains(#[trigger] back@[i]),
                forall|i: int|
                    #![trigger back@[i], back@[i + 1]]
                    0 <= i < back@.len() - 1 ==> adjacent(back@[i + 1], back@[i]),
            ensures
                n == start,
                back@.len() >= 1,
                back@[0] == goal,
                back@[back@.len() - 1] == start,
                back@.len() - 1 <= gv(g@, goal),
                forall|i: int| 0 <= i < back@.len() ==> w.contains(#[trigger] back@[i]),
                forall|i: int|
                    #![trigger back@[i], back@[i + 1]]
                    0 <= i < back@.len() - 1 ==> adjacent(back@[i + 1], back@[i]),
            decreases gv(g@, n),
        {
            match came.get(&key_of(n)) {
                Some(prev) => {
                    let prev = *prev;
                    proof {
                        if n == start {
                            assert(false);
                        }
                    }
                    back.push(prev);
                    n = prev;
                },
                None => {
                    proof {
                        if n != start {
                            assert(came@.contains_key(cell_key(n)));
                        }
                    }
                    break ;
                },
            }
        }
        let len = back.len();
        let mut p: Vec<Node> = Vec::new();
        let mut k: usize = 0;
        while k < len
            invariant
                len == back@.len(),
                len >= 1,
                k <= len,
                p@.len() == k,
                forall|i: int| 0 <= i < k ==> #[trigger] p@[i] == back@[len - 1 - i],
            decreases len - k,
        {
            p.push(back[len - 1 - k]);
            k = k + 1;
        }
        proof {
            assert forall|i: int| #![trigger p@[i], p@[i + 1]] 0 <= i < p@.len() - 1 implies adjacent(
                p@[i],
                p@[i + 1],
            ) by {
                let j = len - 2 - i;
                assert(p@[i] == back@[j + 1]);
                assert(p@[i + 1] == back@[j]);
                assert(adjacent(back@[j + 1], back@[j]));
            }
            assert forall|i: int| 0 <= i < p@.len() implies w.contains(#[trigger] p@[i]) by {
                assert(p@[i] == back@[len - 1 - i]);
            }
        }
        p
    }
}

/// The cell lies within 2^28 cells of the origin on both axes, far
/// beyond any map of the game.
pub open spec fn in_box(n: Node) -> bool {
    -268435456 <= n.x <= 268435456 && -268435456 <= n.y <= 268435456
}

/// Every cell of `w` lies in the box.
pub open spec fn bounded(w: Set<Node>) -> bool {
    forall|n: Node| #[trigger] w.contains(n) ==> in_box(n)
}

/// A walk from `s` to `g` exists over walkable cells.
pub open spec fn routes(w: Set<Node>, s: Node, g: Node) -> bool {
    w.contains(s) && w.contains(g) && reachable(w, s, g)
}

/// `p` is a shortest walk through `w` from `s` to `g`.
pub open spec fn shortest_walk(w: Set<Node>, p: Seq<Node>, s: Node, g: Node) -> bool {
    &&& is_walk_between(w, p, s, g)
    &&& forall|q: Seq<Node>| #[trigger] is_walk_between(w, q, s, g) ==> p.len() <= q.len()
}

proof fn lemma_box_domain(w: Set<Node>, goal: Node)
    requires
        bounded(w),
        in_box(goal),
    ensures
        search_domain(w, goal),
{
}

impl Walkable {
    /// A shortest route from `from` to `to`, or `None` where none exists
    /// (for any `to`, inside the box of the walkable cells or not).
    pub fn route(&self, from: Node, to: Node) -> (r: Option<Vec<Node>>)
        requires
            bounded(self@),
        ensures
            r is Some <==> routes(self@, from, to),
            r matches Some(p) ==> shortest_walk(self@, p@, from, to),
    {
        if !(-268435456 <= to.x && to.x <= 268435456 && -268435456 <= to.y && to.y <= 268435456) {
            return None;
        }
        proof {
            lemma_box_domain(self@, to);
        }
        self.find_path(from, to)
    }
}

/// A walk read backwards is a walk between the same cells the other way.
proof fn lemma_reverse_walk(w: Set<Node>, p: Seq<Node>, s: Node, g: Node)
    requires
        is_walk_between(w, p, s, g),
    ensures
        is_walk_between(w, p.reverse(), g, s),
        p.reverse().len() == p.len(),
{
    let r = p.reverse();
    assert forall|i: int| 0 <= i < r.len() implies w.contains(#[trigger] r[i]) by {
        assert(r[i] == p[p.len() - 1 - i]);
    }
    assert forall|i: int| #![trigger r[i], r[i + 1]] 0 <= i < r.len() - 1 implies adjacent(r[i], r[i + 1]) by {
        let j = p.len() - 2 - i;
        assert(r[i] == p[j + 1] && r[i + 1] == p[j]);
        assert(adjacent(p[j], p[j + 1]));
    }
}

/// Routes are as short one way as the other: a shortest walk from `s` to
/// `g` and a shortest walk from `g` to `s` have the same length, and a
/// route exists one way exactly when it exists the other way.
pub proof fn law_route_length_symmetric(w: Set<Node>, s: Node, g: Node, p: Seq<Node>, q: Seq<Node>)
    ensures
        routes(w, s, g) == routes(w, g, s),
        shortest_walk(w, p, s, g) && shortest_walk(w, q, g, s) ==> p.len() == q.len(),
{
    if reachable(w, s, g) {
        let a = choose|a: Seq<Node>| is_walk_between(w, a, s, g);
        lemma_reverse_walk(w, a, s, g);
        assert(reachable(w, g, s));
    }
    if reachable(w, g, s) {
        let a = choose|a: Seq<Node>| is_walk_between(w, a, g, s);
        lemma_reverse_walk(w, a, g, s);
        assert(reachable(w, s, g));
    }
    if shortest_walk(w, p, s, g) && shortest_walk(w, q, g, s) {
        lemma_reverse_walk(w, p, s, g);
        lemma_reverse_walk(w, q, g, s);
        assert(q.len() <= p.reverse().len());
        assert(p.len() <= q.reverse().len());
    }
}

/// More walkable cells never lose a route nor make it longer: where a
/// shortest walk `p1` through `w1` leads from `s` to `g`, a route leads
/// there through any larger set `w2`, and its shortest walks are no longer.
pub proof fn law_route_monotone(w1: Set<Node>, w2: Set<Node>, s: Node, g: Node, p1: Seq<Node>, p2: Seq<Node>)
    requires
        w1.subset_of(w2),
        shortest_walk(w1, p1, s, g),
    ensures
        routes(w2, s, g),
        shortest_walk(w2, p2, s, g) ==> p2.len() <= p1.len(),
{
    assert forall|i: int| 0 <= i < p1.len() implies w2.contains(#[trigger] p1[i]) by {
        assert(w1.contains(p1[i]));
    }
    assert(is_walk_between(w2, p1, s, g));
    assert(w2.contains(p1[0]) && w2.contains(p1[p1.len() - 1]));
}

} // verus!
