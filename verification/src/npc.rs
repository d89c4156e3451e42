//! Townsfolk who patrol fixed routes around the shop.

use vstd::prelude::*;
use crate::pathfinding::{Node, Walkable, bounded, routes, shortest_walk};

verus! {

/// The patrol routes, cell by cell.
pub open spec fn route_cells() -> Seq<Seq<Node>> {
    seq![
        seq![Node { x: 13i32, y: 11i32 }, Node { x: 13i32, y: -5i32 }, Node { x: 13i32, y: -11i32 }, Node { x: -14i32, y: -11i32 }, Node { x: -15i32, y: 11i32 }],
        seq![Node { x: -15i32, y: 11i32 }, Node { x: -14i32, y: -11i32 }, Node { x: 13i32, y: -11i32 }, Node { x: 13i32, y: -5i32 }, Node { x: 13i32, y: 11i32 }],
        seq![Node { x: -15i32, y: 11i32 }, Node { x: -14i32, y: -11i32 }, Node { x: 13i32, y: -11i32 }, Node { x: 13i32, y: -8i32 }, Node { x: -14i32, y: -8i32 }, Node { x: -15i32, y: 11i32 }],
        seq![Node { x: 9i32, y: 11i32 }, Node { x: 9i32, y: -5i32 }, Node { x: 10i32, y: -5i32 }, Node { x: 10i32, y: -11i32 }, Node { x: 3i32, y: -11i32 }, Node { x: 3i32, y: -9i32 }, Node { x: 13i32, y: -9i32 }, Node { x: 13i32, y: 11i32 }],
        seq![Node { x: 13i32, y: -5i32 }, Node { x: -15i32, y: -5i32 }, Node { x: -14i32, y: -8i32 }, Node { x: 13i32, y: -8i32 }, Node { x: 13i32, y: -11i32 }, Node { x: -14i32, y: -11i32 }, Node { x: -15i32, y: 11i32 }],
    ]
}

/// The five patrol routes of the townsfolk.
pub fn patrol_routes() -> (r: Vec<Vec<Node>>)
    ensures
        r@.len() == route_cells().len(),
        forall|k: int| 0 <= k < r@.len() ==> (#[trigger] r@[k])@ == route_cells()[k],
{
    let mut r: Vec<Vec<Node>> = Vec::new();
    r.push(vec![Node::new(13, 11), Node::new(13, -5), Node::new(13, -11), Node::new(-14, -11), Node::new(-15, 11)]);
    r.push(vec![Node::new(-15, 11), Node::new(-14, -11), Node::new(13, -11), Node::new(13, -5), Node::new(13, 11)]);
    r.push(vec![Node::new(-15, 11), Node::new(-14, -11), Node::new(13, -11), Node::new(13, -8), Node::new(-14, -8), Node::new(-15, 11)]);
    r.push(vec![Node::new(9, 11), Node::new(9, -5), Node::new(10, -5), Node::new(10, -11), Node::new(3, -11), Node::new(3, -9), Node::new(13, -9), Node::new(13, 11)]);
    r.push(vec![Node::new(13, -5), Node::new(-15, -5), Node::new(-14, -8), Node::new(13, -8), Node::new(13, -11), Node::new(-14, -11), Node::new(-15, 11)]);
    proof {
        assert forall|k: int| 0 <= k < r@.len() implies (#[trigger] r@[k])@ == route_cells()[k] by {
            if k == 0 {
                assert(r@[0]@ =~= route_cells()[0]);
            } else if k == 1 {
                assert(r@[1]@ =~= route_cells()[1]);
            } else if k == 2 {
                assert(r@[2]@ =~= route_cells()[2]);
            } else if k == 3 {
                assert(r@[3]@ =~= route_cells()[3]);
            } else {
                assert(r@[4]@ =~= route_cells()[4]);
            }
        }
    }
    r
}

/// A patrolling townsperson: its route, the index of the cell it heads for
/// and the path walked toward it. Its position, timers and sprite are the
/// application's.
pub struct Npc {
    pub path: Vec<Node>,
    pub path_index: usize,
    pub patrol_route: Vec<Node>,
    pub patrol_index: usize,
}

/// Every offset from 1 to `d - 1` after index `i` of the route (going
/// round) holds the cell `here`.
pub open spec fn skipped(route: Seq<Node>, i: int, here: Node, d: int) -> bool {
    forall|e: int| 1 <= e < d ==> #[trigger] route[(i + e) % (route.len() as int)] == here
}

/// The route has a cell other than `here`.
pub open spec fn leaves(route: Seq<Node>, here: Node) -> bool {
    exists|j: int| 0 <= j < route.len() && route[j] != here
}

impl Npc {
    /// A townsperson on route `route`, standing at its cell `start_idx`,
    /// with no path yet.
    pub fn new(route: &Vec<Node>, start_idx: usize) -> (n: Npc)
        requires
            start_idx < route@.len(),
        ensures
            n.patrol_route@ == route@,
            n.patrol_index == start_idx,
            n.path@.len() == 0,
            n.path_index == 0,
    {
        let mut patrol_route: Vec<Node> = Vec::new();
        let mut i: usize = 0;
        while i < route.len()
            invariant
                i <= route@.len(),
                patrol_route@ == route@.take(i as int),
            decreases route@.len() - i,
        {
            patrol_route.push(route[i]);
            proof {
                assert(route@.take(i + 1) =~= route@.take(i as int).push(route@[i as int]));
            }
            i = i + 1;
        }
        proof {
            assert(route@.take(i as int) =~= route@);
        }
        Npc { path: Vec::new(), path_index: 0, patrol_route, patrol_index: start_idx }
    }

    /// Moves on to the next cell of the route that differs from `here`,
    /// the townsperson's cell (going round), and sets off along a shortest
    /// route to it; where no route leads there the old path stays.
    pub fn advance(&mut self, walkable: &Walkable, here: Node)
        requires
            bounded(walkable@),
            old(self).patrol_index < old(self).patrol_route@.len(),
            leaves(old(self).patrol_route@, here),
        ensures
            final(self).patrol_route@ == old(self).patrol_route@,
            final(self).patrol_index < final(self).patrol_route@.len(),
            ({
                let route = old(self).patrol_route@;
                let i = old(self).patrol_index as int;
                exists|d: int|
                    1 <= d <= route.len() && final(self).patrol_index == (i + d) % (route.len() as int) && route[(i + d)
                        % (route.len() as int)] != here && skipped(route, i, here, d)
            }),
            ({
                let goal = final(self).patrol_route@[final(self).patrol_index as int];
                &&& routes(walkable@, here, goal) ==> shortest_walk(walkable@, final(self).path@, here, goal)
                    && final(self).path_index == 0
                &&& !routes(walkable@, here, goal) ==> final(self).path@ == old(self).path@
                    && final(self).path_index == old(self).path_index
            }),
    {
        let ghost route = self.patrol_route@;
        let ghost i0 = self.patrol_index as int;
        let len = self.patrol_route.len();
        let ghost j0 = choose|j: int| 0 <= j < route.len() && route[j] != here;
        let ghost e0: int = if j0 > i0 { j0 - i0 } else { j0 - i0 + len };
        proof {
            assert((i0 + e0) % (len as int) == j0) by (nonlinear_arith)
                requires
                    0 <= i0 < len,
                    0 <= j0 < len,
                    e0 == if j0 > i0 { j0 - i0 } else { j0 - i0 + len },
            ;
        }
        let mut d: usize = 1;
        let mut idx: usize = (self.patrol_index + 1) % len;
        while self.patrol_route[idx] == here
            invariant
                self.patrol_route@ == route,
                route.len() == len,
                0 <= i0 < len,
                1 <= d <= e0,
                1 <= e0 <= len,
                (i0 + e0) % (len as int) == j0,
                route[j0] != here,
                idx == (i0 + d) % (len as int),
                skipped(route, i0, here, d as int),
            decreases e0 - d,
        {
            proof {
                if d == e0 {
                    assert(false);
                }
                assert((i0 + d + 1) % (len as int) == ((i0 + d) % (len as int) + 1) % (len as int)) by (nonlinear_arith)
                    requires
                        len > 0,
                ;
                assert forall|e: int| 1 <= e < d + 1 implies #[trigger] route[(i0 + e) % (route.len() as int)] == here by {
                    if e == d {
                    }
                }
            }
            d = d + 1;
            idx = (idx + 1) % len;
        }
        let goal = self.patrol_route[idx];
        self.patrol_index = idx;
        match walkable.route(here, goal) {
            Some(path) => {
                self.path = path;
                self.path_index = 0;
            },
            None => {},
        }
    }
}

/// Cell index at which the townsperson of route `k` starts.
pub open spec fn start_index(k: int, route_len: int) -> int {
    let starts = seq![0int, 0, 2, 0, 2];
    starts[if k < 4 { k } else { 4 }] % route_len
}

/// `n` is a townsperson on route `route` that stood at its cell `s` and
/// has set off (see `Npc::advance`): its target is the next cell of the
/// route after `s` (going round) that differs from the start cell, and its
/// path is a shortest walk there through `w`, or empty where none exists.
pub open spec fn set_off(n: Npc, route: Seq<Node>, w: Set<Node>, s: int) -> bool {
    let here = route[s];
    let goal = route[n.patrol_index as int];
    &&& n.patrol_route@ == route
    &&& n.patrol_index < route.len()
    &&& exists|d: int|
        1 <= d <= route.len() && n.patrol_index == (s + d) % (route.len() as int) && route[(s + d) % (
        route.len() as int)] != here && skipped(route, s, here, d)
    &&& n.path_index == 0
    &&& routes(w, here, goal) ==> shortest_walk(w, n.path@, here, goal)
    &&& !routes(w, here, goal) ==> n.path@.len() == 0
}

/// One townsperson per route, each standing at its start cell (the first,
/// first, third, first and third cell of the five routes; the index is
/// taken modulo the route's length) and already set off to its next
/// cell.
pub fn setup_npcs(walkable: &Walkable, routes: &Vec<Vec<Node>>) -> (npcs: Vec<Npc>)
    requires
        bounded(walkable@),
        forall|k: int| 0 <= k < routes@.len() ==> (#[trigger] routes@[k]@).len() > 0,
        forall|k: int|
            0 <= k < routes@.len() ==> leaves(
                #[trigger] routes@[k]@,
                routes@[k]@[start_index(k, routes@[k]@.len() as int)],
            ),
    ensures
        npcs@.len() == routes@.len(),
        forall|k: int|
            0 <= k < npcs@.len() ==> set_off(
                #[trigger] npcs@[k],
                routes@[k]@,
                walkable@,
                start_index(k, routes@[k]@.len() as int),
            ),
{
    let starts: [usize; 5] = [0, 0, 2, 0, 2];
    let mut npcs: Vec<Npc> = Vec::new();
    let mut k: usize = 0;
    while k < routes.len()
        invariant
            k <= routes@.len(),
            npcs@.len() == k,
            forall|m: int| 0 <= m < routes@.len() ==> (#[trigger] routes@[m]@).len() > 0,
            forall|m: int|
                0 <= m < routes@.len() ==> leaves(
                    #[trigger] routes@[m]@,
                    routes@[m]@[start_index(m, routes@[m]@.len() as int)],
                ),
            forall|m: int|
                0 <= m < k ==> set_off(
                    #[trigger] npcs@[m],
                    routes@[m]@,
                    walkable@,
                    start_index(m, routes@[m]@.len() as int),
                ),
            bounded(walkable@),
            starts@ == seq![0usize, 0, 2, 0, 2],
        decreases routes@.len() - k,
    {
        let route = &routes[k];
        let pick = if k < 4 { k } else { 4 };
        let start_idx = starts[pick] % route.len();
        let mut npc = Npc::new(route, start_idx);
        let here = route[start_idx];
        proof {
            assert(start_idx == start_index(k as int, route@.len() as int));
        }
        npc.advance(walkable, here);
        proof {
            assert(set_off(npc, route@, walkable@, start_idx as int));
        }
        npcs.push(npc);
        k = k + 1;
    }
    npcs
}

} // verus!
