//! Shoppers: customers who walk to a rack, take food, pay at a cash desk,
//! maybe buy candies, and leave. The decisions of a shopper stand here;
//! its movement between cells, its timers and its fading are the
//! application's.

use vstd::prelude::*;
use crate::pathfinding::{Node, Walkable, bounded, routes, shortest_walk};
use crate::shop::{Shop, Balance, Money, Placed, rack_for, candy_on, lemma_same_objects_queries, named, stocked, anchor, anchor_cell};
use crate::text::str_eq;

verus! {

/// What a shopper is doing.
#[derive(Clone, Copy, Debug, PartialEq, Eq, Structural)]
pub enum ShopperState {
    GoingToRack,
    GoingToCassa,
    AtCassa,
    GoingToCandies,
    AtCandies,
    GoingToExit,
}

/// What the application does for a shopper after a decision step.
#[derive(Clone, Copy, Debug, PartialEq, Eq, Structural)]
pub enum ShopperStep {
    /// Walk toward the next cell of the route.
    Walk,
    /// Show the idle sprite.
    Idle,
    /// Show the idle sprite and start the wait at the cash desk.
    WaitAtCassa,
    /// Show the idle sprite and start the wait at the candy stand.
    WaitAtCandies,
    /// Walk straight on to the exit point beyond the last cell.
    ApproachExit,
    /// Nothing.
    Nothing,
}

/// What happened since the last decision step, as the application saw it.
#[derive(Clone, Copy)]
pub struct Tick {
    /// The running wait (at the cash desk or the candy stand) is over.
    pub timer_done: bool,
    /// The chance roll for buying candies came up.
    pub candy_roll: bool,
    /// This frame's step reaches the exit point.
    pub at_exit: bool,
}

/// A shopper's decision state.
pub struct ShopperNpc {
    pub state: ShopperState,
    /// The route being walked and the index of its next cell.
    pub path: Vec<Node>,
    pub path_index: usize,
    pub rack_pos: Node,
    pub cassa_pos: Node,
    pub candy_pos: Option<Node>,
    pub candy_taken: bool,
    /// The shopper has been sent to the spawn cell, beyond which lies the
    /// exit point.
    pub heading_out: bool,
    /// New shoppers are not wanted: leave unless food was taken.
    pub exiting: bool,
    pub food_taken: bool,
    pub despawning: bool,
}

/// The number of a state, as scripts see it.
pub open spec fn state_number(s: ShopperState) -> i32 {
    match s {
        ShopperState::GoingToRack => 1,
        ShopperState::GoingToCassa => 2,
        ShopperState::AtCassa => 3,
        ShopperState::GoingToCandies => 4,
        ShopperState::AtCandies => 5,
        ShopperState::GoingToExit => 6,
    }
}

/// The state a script's number stands for; unknown numbers mean going to
/// the rack.
pub open spec fn state_of_number(n: i32) -> ShopperState {
    if n == 2 {
        ShopperState::GoingToCassa
    } else if n == 3 {
        ShopperState::AtCassa
    } else if n == 4 {
        ShopperState::GoingToCandies
    } else if n == 5 {
        ShopperState::AtCandies
    } else if n == 6 {
        ShopperState::GoingToExit
    } else {
        ShopperState::GoingToRack
    }
}

/// Numbering the states and reading the number back gives the state
/// again.
pub proof fn law_state_number_roundtrip(s: ShopperState)
    ensures
        state_of_number(state_number(s)) == s,
        1 <= state_number(s) <= 6,
{
}

/// Reading a number in 1 to 6 as a state and numbering it gives the number
/// again; any other number reads as going to the rack.
pub proof fn law_number_state_roundtrip(n: i32)
    ensures
        1 <= n <= 6 ==> state_number(state_of_number(n)) == n,
        !(1 <= n <= 6) ==> state_of_number(n) == ShopperState::GoingToRack,
{
}

impl ShopperNpc {
    /// A new shopper at `spawn_pos`, headed for the rack by a shortest
    /// route; `None` when no route leads there. The first cell of the
    /// route is the spawn cell itself, so walking starts at the second.
    pub fn spawn(
        walkable: &Walkable,
        spawn_pos: Node,
        rack_pos: Node,
        cassa_pos: Node,
        candy_pos: Option<Node>,
    ) -> (r: Option<ShopperNpc>)
        requires
            bounded(walkable@),
        ensures
            r is Some <==> routes(walkable@, spawn_pos, rack_pos),
            r matches Some(s) ==> {
                &&& shortest_walk(walkable@, s.path@, spawn_pos, rack_pos)
                &&& s.path_index == 1
                &&& s.state == ShopperState::GoingToRack
                &&& s.rack_pos == rack_pos
                &&& s.cassa_pos == cassa_pos
                &&& s.candy_pos == candy_pos
                &&& !s.candy_taken && !s.heading_out && !s.exiting && !s.food_taken && !s.despawning
            },
    {
        match walkable.route(spawn_pos, rack_pos) {
            Some(path) => Some(
                ShopperNpc {
                    state: ShopperState::GoingToRack,
                    path,
                    path_index: 1,
                    rack_pos,
                    cassa_pos,
                    candy_pos,
                    candy_taken: false,
                    heading_out: false,
                    exiting: false,
                    food_taken: false,
                    despawning: false,
                },
            ),
            None => None,
        }
    }

    /// The number of the state (1 to 6).
    pub fn state_int(&self) -> (n: i32)
        ensures
            n == state_number(self.state),
    {
        match self.state {
            ShopperState::GoingToRack => 1,
            ShopperState::GoingToCassa => 2,
            ShopperState::AtCassa => 3,
            ShopperState::GoingToCandies => 4,
            ShopperState::AtCandies => 5,
            ShopperState::GoingToExit => 6,
        }
    }

    /// Sets the state by its number; unknown numbers mean going to the rack.
    pub fn set_state_int(&mut self, s: i32)
        ensures
            final(self).state == state_of_number(s),
            final(self).path == old(self).path,
            final(self).path_index == old(self).path_index,
            final(self).rack_pos == old(self).rack_pos,
            final(self).cassa_pos == old(self).cassa_pos,
            final(self).candy_pos == old(self).candy_pos,
            final(self).candy_taken == old(self).candy_taken,
            final(self).heading_out == old(self).heading_out,
            final(self).exiting == old(self).exiting,
            final(self).food_taken == old(self).food_taken,
            final(self).despawning == old(self).despawning,
    {
        self.state = if s == 2 {
            ShopperState::GoingToCassa
        } else if s == 3 {
            ShopperState::AtCassa
        } else if s == 4 {
            ShopperState::GoingToCandies
        } else if s == 5 {
            ShopperState::AtCandies
        } else if s == 6 {
            ShopperState::GoingToExit
        } else {
            ShopperState::GoingToRack
        };
    }

    /// The whole route has been walked.
    pub fn path_done(&self) -> (b: bool)
        ensures
            b == (self.path_index >= self.path@.len()),
    {
        self.path_index >= self.path.len()
    }

    /// The next cell of the route, if any is left.
    pub fn next_waypoint(&self) -> (r: Option<Node>)
        ensures
            self.path_index < self.path@.len() ==> r == Some(self.path@[self.path_index as int]),
            self.path_index >= self.path@.len() ==> r is None,
    {
        if self.path_index < self.path.len() {
            Some(self.path[self.path_index])
        } else {
            None
        }
    }

    /// The next cell of the route has been reached.
    pub fn reach_waypoint(&mut self)
        ensures
            old(self).path_index < old(self).path@.len() ==> final(self).path_index == old(self).path_index + 1,
            old(self).path_index >= old(self).path@.len() ==> final(self).path_index == old(self).path_index,
            final(self).state == old(self).state,
            final(self).path == old(self).path,
            final(self).rack_pos == old(self).rack_pos,
            final(self).cassa_pos == old(self).cassa_pos,
            final(self).candy_pos == old(self).candy_pos,
            final(self).candy_taken == old(self).candy_taken,
            final(self).heading_out == old(self).heading_out,
            final(self).exiting == old(self).exiting,
            final(self).food_taken == old(self).food_taken,
            final(self).despawning == old(self).despawning,
    {
        if self.path_index < self.path.len() {
            self.path_index = self.path_index + 1;
        }
    }

    pub fn set_exiting(&mut self, val: bool)
        ensures
            final(self).exiting == val,
            final(self).state == old(self).state,
            final(self).path == old(self).path,
            final(self).path_index == old(self).path_index,
            final(self).rack_pos == old(self).rack_pos,
            final(self).cassa_pos == old(self).cassa_pos,
            final(self).candy_pos == old(self).candy_pos,
            final(self).candy_taken == old(self).candy_taken,
            final(self).heading_out == old(self).heading_out,
            final(self).food_taken == old(self).food_taken,
            final(self).despawning == old(self).despawning,
    {
        self.exiting = val;
    }

    pub fn has_taken_food(&self) -> (b: bool)
        ensures
            b == self.food_taken,
    {
        self.food_taken
    }

    pub fn is_food_taken(&self) -> (b: bool)
        ensures
            b == self.food_taken,
    {
        self.food_taken
    }

    pub fn is_exiting(&self) -> (b: bool)
        ensures
            b == self.exiting,
    {
        self.exiting
    }

    pub fn rack_pos(&self) -> (n: Node)
        ensures
            n == self.rack_pos,
    {
        self.rack_pos
    }

    pub fn cassa_pos(&self) -> (n: Node)
        ensures
            n == self.cassa_pos,
    {
        self.cassa_pos
    }

    pub fn candy_pos(&self) -> (n: Option<Node>)
        ensures
            n == self.candy_pos,
    {
        self.candy_pos
    }

    /// Starts the fade-out that ends with the shopper's removal.
    pub fn request_despawn(&mut self)
        ensures
            final(self).despawning,
            final(self).state == old(self).state,
            final(self).path == old(self).path,
            final(self).path_index == old(self).path_index,
            final(self).rack_pos == old(self).rack_pos,
            final(self).cassa_pos == old(self).cassa_pos,
            final(self).candy_pos == old(self).candy_pos,
            final(self).candy_taken == old(self).candy_taken,
            final(self).heading_out == old(self).heading_out,
            final(self).exiting == old(self).exiting,
            final(self).food_taken == old(self).food_taken,
    {
        self.despawning = true;
    }
}

/// The outcome of one decision step of a shopper: its new decision
/// state, the shop's new cash desks in use and money, whether food or a
/// candy was taken, the cell a new route leads to (if one was started)
/// and what the application is to do.
pub struct Plan {
    pub state: ShopperState,
    pub cassa_pos: Node,
    pub food_taken: bool,
    pub candy_taken: bool,
    pub heading_out: bool,
    pub despawning: bool,
    pub busy: Set<Node>,
    pub money: int,
    pub takes_food: bool,
    pub takes_candy: bool,
    pub route: Option<Node>,
    pub step: ShopperStep,
}

/// The plan before any decision: everything as it is.
pub open spec fn plan_start(s: ShopperNpc, o: Shop) -> Plan {
    Plan {
        state: s.state,
        cassa_pos: s.cassa_pos,
        food_taken: s.food_taken,
        candy_taken: s.candy_taken,
        heading_out: s.heading_out,
        despawning: s.despawning,
        busy: o.busy_cassas.0@,
        money: o.money.0 as int,
        takes_food: false,
        takes_candy: false,
        route: None,
        step: ShopperStep::Nothing,
    }
}

/// Sets off toward `t` in state `st` if a route leads there from `here`;
/// a route to the spawn cell makes the shopper head out.
pub open spec fn head_to(p: Plan, w: Set<Node>, here: Node, spawn: Node, t: Node, st: ShopperState) -> Plan {
    if routes(w, here, t) {
        Plan { state: st, route: Some(t), heading_out: p.heading_out || t == spawn, ..p }
    } else {
        p
    }
}

/// First check: while not leaving, a shopper whose cash desk is gone
/// switches to the first desk of the shop (re-routing to it and moving
/// its claim there if it already has food), or, with no desk left,
/// leaves, or fades out where it cannot. The flag tells whether the step
/// ends here.
pub open spec fn plan_cassa_check(o: Shop, w: Set<Node>, here: Node, spawn: Node, p: Plan) -> (Plan, bool) {
    if p.state != ShopperState::GoingToExit && !o.cassa_at(p.cassa_pos) {
        match o.first_cassa() {
            Some(c) => if p.food_taken {
                let q = Plan { busy: p.busy.remove(p.cassa_pos).insert(c), cassa_pos: c, ..p };
                (head_to(q, w, here, spawn, c, ShopperState::GoingToCassa), false)
            } else {
                (Plan { cassa_pos: c, ..p }, false)
            },
            None => if routes(w, here, spawn) {
                (head_to(p, w, here, spawn, spawn, ShopperState::GoingToExit), true)
            } else {
                (Plan { despawning: true, ..p }, true)
            },
        }
    } else {
        (p, false)
    }
}

/// A shopper at its rack with food ready to be taken: if its cash desk is
/// gone it gives up the claim and switches to the first desk, or leaves
/// if there is none; it waits while its desk is in use; it fades out if
/// the rack has no food; otherwise it takes food, claims the desk and sets
/// off for it.
pub open spec fn plan_serve(s: ShopperNpc, o: Shop, w: Set<Node>, here: Node, spawn: Node, p: Plan) -> Plan {
    let gone = !o.cassa_at(p.cassa_pos);
    let q0 = if gone { Plan { busy: p.busy.remove(p.cassa_pos), ..p } } else { p };
    if gone && o.first_cassa() is None {
        Plan { step: ShopperStep::Idle, ..head_to(q0, w, here, spawn, spawn, ShopperState::GoingToExit) }
    } else {
        let q = if gone { Plan { cassa_pos: o.first_cassa()->0, ..q0 } } else { q0 };
        if q.busy.contains(q.cassa_pos) {
            Plan { step: ShopperStep::Idle, ..q }
        } else if !o.rack_ready(s.rack_pos) {
            Plan { despawning: true, step: ShopperStep::Idle, ..q }
        } else {
            let r = Plan { busy: q.busy.insert(q.cassa_pos), takes_food: true, food_taken: true, ..q };
            Plan { step: ShopperStep::Idle, ..head_to(r, w, here, spawn, q.cassa_pos, ShopperState::GoingToCassa) }
        }
    }
}

/// The state's own decision, once the checks are passed. `done` tells
/// whether the route has been walked.
pub open spec fn plan_act(s: ShopperNpc, o: Shop, w: Set<Node>, here: Node, spawn: Node, tick: Tick, b: Balance, p: Plan) -> Plan {
    let done = p.route is None && s.path_index >= s.path@.len();
    match p.state {
        ShopperState::GoingToRack => if !done {
            Plan { step: ShopperStep::Walk, ..p }
        } else if s.exiting {
            Plan { despawning: true, step: ShopperStep::Idle, ..p }
        } else {
            plan_serve(s, o, w, here, spawn, p)
        },
        ShopperState::GoingToCassa => if done {
            Plan { state: ShopperState::AtCassa, step: ShopperStep::WaitAtCassa, ..p }
        } else {
            Plan { step: ShopperStep::Walk, ..p }
        },
        ShopperState::AtCassa => if tick.timer_done {
            let q = Plan { busy: p.busy.remove(p.cassa_pos), money: p.money + b.money_at_cassa, ..p };
            let want = s.candy_pos is Some && tick.candy_roll && o.candy_ready(s.candy_pos->0);
            let r = if want && routes(w, here, s.candy_pos->0) {
                head_to(q, w, here, spawn, s.candy_pos->0, ShopperState::GoingToCandies)
            } else {
                head_to(q, w, here, spawn, spawn, ShopperState::GoingToExit)
            };
            Plan { step: ShopperStep::Idle, ..r }
        } else {
            Plan { step: ShopperStep::Idle, ..p }
        },
        ShopperState::GoingToCandies => {
            let ready = s.candy_pos is Some && o.candy_ready(s.candy_pos->0);
            if !ready {
                Plan { step: ShopperStep::Nothing, ..head_to(p, w, here, spawn, spawn, ShopperState::GoingToExit) }
            } else if done {
                Plan {
                    takes_candy: true,
                    candy_taken: true,
                    state: ShopperState::AtCandies,
                    step: ShopperStep::WaitAtCandies,
                    ..p
                }
            } else {
                Plan { step: ShopperStep::Walk, ..p }
            }
        },
        ShopperState::AtCandies => if tick.timer_done {
            let q = Plan { money: p.money + b.money_at_candy, ..p };
            Plan { step: ShopperStep::Idle, ..head_to(q, w, here, spawn, spawn, ShopperState::GoingToExit) }
        } else {
            Plan { step: ShopperStep::Idle, ..p }
        },
        ShopperState::GoingToExit => if !done {
            Plan { step: ShopperStep::Walk, ..p }
        } else if p.heading_out && !tick.at_exit {
            Plan { step: ShopperStep::ApproachExit, ..p }
        } else {
            Plan { despawning: true, step: ShopperStep::Nothing, ..p }
        },
    }
}

/// The checks that come before the state's own decision: a shopper whose
/// cash desk is gone moves to another or leaves (see `plan_cassa_check`);
/// one still without food whose rack is gone or empty fades out; one
/// without food leaves when new shoppers are not wanted and turns back to
/// the rack when they are wanted again. The flag tells whether the step
/// ends here.
pub open spec fn plan_checks(s: ShopperNpc, o: Shop, w: Set<Node>, here: Node, spawn: Node) -> (Plan, bool) {
    let (p1, stop) = plan_cassa_check(o, w, here, spawn, plan_start(s, o));
    if stop {
        (p1, true)
    } else if !p1.food_taken && p1.state == ShopperState::GoingToRack && !o.rack_ready(s.rack_pos) {
        (Plan { despawning: true, ..p1 }, true)
    } else {
        let p3 = if s.exiting && !p1.food_taken && p1.state == ShopperState::GoingToRack {
            head_to(p1, w, here, spawn, spawn, ShopperState::GoingToExit)
        } else {
            p1
        };
        let p4 = if !s.exiting && !p3.food_taken && p3.state == ShopperState::GoingToExit {
            head_to(p3, w, here, spawn, s.rack_pos, ShopperState::GoingToRack)
        } else {
            p3
        };
        (p4, false)
    }
}

/// One decision step of shopper `s` in shop `o`, standing on cell `here`,
/// over walkable cells `w`, with `spawn` the cell shoppers leave by: the
/// checks (see `plan_checks`), then, unless they end the step, the
/// state's own decision (see `plan_act`).
pub open spec fn plan(s: ShopperNpc, o: Shop, w: Set<Node>, here: Node, spawn: Node, tick: Tick, b: Balance) -> Plan {
    let (p, stop) = plan_checks(s, o, w, here, spawn);
    if stop {
        p
    } else {
        plan_act(s, o, w, here, spawn, tick, b, p)
    }
}

/// `k` is the first rack with food that serves cell `at`.
pub open spec fn first_rack(o: Shop, at: Node, k: int) -> bool {
    &&& 0 <= k < o.objects@.len()
    &&& rack_for(o.objects@[k], at)
    &&& forall|m: int| 0 <= m < k ==> !rack_for(#[trigger] o.objects@[m], at)
}

/// `k` is the first stocked candy stand at `at`.
pub open spec fn first_candy(o: Shop, at: Node, k: int) -> bool {
    &&& 0 <= k < o.objects@.len()
    &&& candy_on(o.objects@[k], at)
    &&& forall|m: int| 0 <= m < k ==> !candy_on(#[trigger] o.objects@[m], at)
}

impl ShopperNpc {
    /// `self` and `shop` are `s` and `o` after carrying out plan `p`,
    /// where `here` is the shopper's cell and `w` the walkable cells.
    pub open spec fn carried_out(self, shop: Shop, s: ShopperNpc, o: Shop, w: Set<Node>, here: Node, p: Plan) -> bool {
        &&& self.state == p.state
        &&& self.cassa_pos == p.cassa_pos
        &&& self.food_taken == p.food_taken
        &&& self.candy_taken == p.candy_taken
        &&& self.heading_out == p.heading_out
        &&& self.despawning == p.despawning
        &&& self.rack_pos == s.rack_pos
        &&& self.candy_pos == s.candy_pos
        &&& self.exiting == s.exiting
        &&& (p.route matches Some(t) ==> shortest_walk(w, self.path@, here, t) && self.path_index == 0)
        &&& (p.route is None ==> self.path@ == s.path@ && self.path_index == s.path_index)
        &&& shop.busy_cassas.0@ == p.busy
        &&& shop.money.0 == p.money
        &&& shop.total_food == o.total_food
        &&& shop.pending_food_adds@ == o.pending_food_adds@
        &&& shop.next_group_id == o.next_group_id
        &&& shop.basement_placed == o.basement_placed
        &&& shop.current_level == o.current_level
        &&& shop.floor_positions == o.floor_positions
        &&& shop.wall_positions == o.wall_positions
        &&& shop.outdoor_positions == o.outdoor_positions
        &&& shop.flower_positions == o.flower_positions
        &&& shop.same_map(o)
        &&& (p.takes_food ==> exists|k: int| first_rack(o, s.rack_pos, k) && shop.took_objects(o, k))
        &&& (p.takes_candy ==> exists|k: int|
            #![trigger o.objects@[k]]
            s.candy_pos is Some && first_candy(o, s.candy_pos->0, k) && shop.took_objects(o, k))
        &&& (!p.takes_food && !p.takes_candy ==> shop.objects@ == o.objects@)
    }

    /// Sets off along a shortest route from `here` to `to`, if one exists,
    /// and reports whether it does; a route to the spawn cell makes the
    /// shopper head out.
    fn start_path(&mut self, walkable: &Walkable, here: Node, spawn: Node, to: Node) -> (b: bool)
        requires
            bounded(walkable@),
        ensures
            b == routes(walkable@, here, to),
            b ==> shortest_walk(walkable@, final(self).path@, here, to) && final(self).path_index == 0
                && final(self).heading_out == (old(self).heading_out || to == spawn),
            !b ==> final(self).path@ == old(self).path@ && final(self).path_index == old(self).path_index
                && final(self).heading_out == old(self).heading_out,
            final(self).state == old(self).state,
            final(self).rack_pos == old(self).rack_pos,
            final(self).cassa_pos == old(self).cassa_pos,
            final(self).candy_pos == old(self).candy_pos,
            final(self).candy_taken == old(self).candy_taken,
            final(self).exiting == old(self).exiting,
            final(self).food_taken == old(self).food_taken,
            final(self).despawning == old(self).despawning,
    {
        match walkable.route(here, to) {
            Some(path) => {
                self.path = path;
                self.path_index = 0;
                if to == spawn {
                    self.heading_out = true;
                }
                true
            },
            None => false,
        }
    }

    /// The checks of a decision step (see `plan_checks`); `Some` with the
    /// step's result when they end it.
    fn run_checks(&mut self, shop: &mut Shop, walkable: &Walkable, here: Node, spawn: Node) -> (r: Option<ShopperStep>)
        requires
            bounded(walkable@),
        ensures
            ({
                let (p, stop) = plan_checks(*old(self), *old(shop), walkable@, here, spawn);
                &&& final(self).carried_out(*final(shop), *old(self), *old(shop), walkable@, here, p)
                &&& (r is Some <==> stop)
                &&& (r matches Some(step) ==> step == p.step)
                &&& p.step == ShopperStep::Nothing
                &&& !p.takes_food && !p.takes_candy
            }),
    {
        let ghost s0 = *self;
        let ghost o = *shop;
        let ghost w = walkable@;
        if self.state != ShopperState::GoingToExit && !shop.cassa_exists(self.cassa_pos) {
            match shop.find_any_cassa() {
                Some(c) => {
                    if self.food_taken {
                        shop.busy_cassas.0.remove(self.cassa_pos);
                        shop.busy_cassas.0.insert(c);
                        self.cassa_pos = c;
                        if self.start_path(walkable, here, spawn, c) {
                            self.state = ShopperState::GoingToCassa;
                        }
                    } else {
                        self.cassa_pos = c;
                    }
                },
                None => {
                    if self.start_path(walkable, here, spawn, spawn) {
                        self.state = ShopperState::GoingToExit;
                        return Some(ShopperStep::Nothing);
                    }
                    self.despawning = true;
                    return Some(ShopperStep::Nothing);
                },
            }
        }
        let ghost p1 = plan_cassa_check(o, w, here, spawn, plan_start(s0, o)).0;
        assert(self.carried_out(*shop, s0, o, w, here, p1));
        proof {
            lemma_same_objects_queries(*shop, o);
        }
        if !self.food_taken && self.state == ShopperState::GoingToRack && !shop.rack_exists(self.rack_pos) {
            self.despawning = true;
            return Some(ShopperStep::Nothing);
        }
        if self.exiting && !self.food_taken && self.state == ShopperState::GoingToRack {
            if self.start_path(walkable, here, spawn, spawn) {
                self.state = ShopperState::GoingToExit;
            }
        }
        if !self.exiting && !self.food_taken && self.state == ShopperState::GoingToExit {
            let rack = self.rack_pos;
            if self.start_path(walkable, here, spawn, rack) {
                self.state = ShopperState::GoingToRack;
            }
        }
        None
    }

    /// The decision of a shopper that has walked to its rack (see
    /// `plan_serve`).
    fn serve(
        &mut self,
        shop: &mut Shop,
        walkable: &Walkable,
        here: Node,
        spawn: Node,
        Ghost(s0): Ghost<ShopperNpc>,
        Ghost(o): Ghost<Shop>,
        Ghost(p): Ghost<Plan>,
    ) -> (step: ShopperStep)
        requires
            bounded(walkable@),
            old(self).carried_out(*old(shop), s0, o, walkable@, here, p),
            !p.takes_food && !p.takes_candy,
        ensures
            final(self).carried_out(*final(shop), s0, o, walkable@, here, plan_serve(s0, o, walkable@, here, spawn, p)),
            step == ShopperStep::Idle,
    {
        let ghost w = walkable@;
        let ghost gone = !o.cassa_at(p.cassa_pos);
        let ghost q0 = if gone { Plan { busy: p.busy.remove(p.cassa_pos), ..p } } else { p };
        proof {
            lemma_same_objects_queries(*shop, o);
        }
        if !shop.cassa_exists(self.cassa_pos) {
            shop.busy_cassas.0.remove(self.cassa_pos);
            proof {
                lemma_same_objects_queries(*shop, o);
            }
            assert(self.carried_out(*shop, s0, o, w, here, q0));
            match shop.find_any_cassa() {
                Some(c) => {
                    self.cassa_pos = c;
                },
                None => {
                    if self.start_path(walkable, here, spawn, spawn) {
                        self.state = ShopperState::GoingToExit;
                    }
                    return ShopperStep::Idle;
                },
            }
        }
        let ghost q = if gone { Plan { cassa_pos: o.first_cassa()->0, ..q0 } } else { q0 };
        assert(self.carried_out(*shop, s0, o, w, here, q));
        if shop.busy_cassas.0.contains(self.cassa_pos) {
            return ShopperStep::Idle;
        }
        let ghost before = *shop;
        if !shop.take_food(self.rack_pos) {
            self.despawning = true;
            return ShopperStep::Idle;
        }
        let ghost k = choose|k: int|
            #![trigger before.objects@[k]]
            rack_for(before.objects@[k], s0.rack_pos) && (forall|m: int|
                0 <= m < k ==> !rack_for(#[trigger] before.objects@[m], s0.rack_pos)) && shop.took_from(before, k);
        assert(first_rack(o, s0.rack_pos, k));
        self.food_taken = true;
        shop.busy_cassas.0.insert(self.cassa_pos);
        assert(shop.took_objects(o, k));
        let cassa = self.cassa_pos;
        if self.start_path(walkable, here, spawn, cassa) {
            self.state = ShopperState::GoingToCassa;
        }
        ShopperStep::Idle
    }

    /// The state's own decision, once the checks are passed (see
    /// `plan_act`).
    fn act(
        &mut self,
        shop: &mut Shop,
        walkable: &Walkable,
        here: Node,
        spawn: Node,
        tick: Tick,
        balance: &Balance,
        Ghost(s0): Ghost<ShopperNpc>,
        Ghost(o): Ghost<Shop>,
        Ghost(p): Ghost<Plan>,
    ) -> (step: ShopperStep)
        requires
            bounded(walkable@),
            old(self).carried_out(*old(shop), s0, o, walkable@, here, p),
            !p.takes_food && !p.takes_candy,
            p.state == ShopperState::AtCassa && tick.timer_done ==> i32::MIN <= p.money + balance.money_at_cassa
                <= i32::MAX,
            p.state == ShopperState::AtCandies && tick.timer_done ==> i32::MIN <= p.money + balance.money_at_candy
                <= i32::MAX,
        ensures
            final(self).carried_out(
                *final(shop),
                s0,
                o,
                walkable@,
                here,
                plan_act(s0, o, walkable@, here, spawn, tick, *balance, p),
            ),
            step == plan_act(s0, o, walkable@, here, spawn, tick, *balance, p).step,
    {
        let ghost w = walkable@;
        let done = self.path_index >= self.path.len();
        assert(done == (p.route is None && s0.path_index >= s0.path@.len())) by {
            if p.route is Some {
                assert(self.path@.len() >= 1);
            }
        }
        proof {
            lemma_same_objects_queries(*shop, o);
        }
        match self.state {
            ShopperState::GoingToRack => {
                if !done {
                    return ShopperStep::Walk;
                }
                if self.exiting {
                    self.despawning = true;
                    return ShopperStep::Idle;
                }
                self.serve(shop, walkable, here, spawn, Ghost(s0), Ghost(o), Ghost(p))
            },
            ShopperState::GoingToCassa => {
                if done {
                    self.state = ShopperState::AtCassa;
                    return ShopperStep::WaitAtCassa;
                }
                ShopperStep::Walk
            },
            ShopperState::AtCassa => {
                if tick.timer_done {
                    shop.busy_cassas.0.remove(self.cassa_pos);
                    shop.money = Money(shop.money.0 + balance.money_at_cassa);
                    proof {
                        lemma_same_objects_queries(*shop, o);
                    }
                    let want = match self.candy_pos {
                        Some(c) => tick.candy_roll && shop.candy_exists(c),
                        None => false,
                    };
                    let mut going = false;
                    if want {
                        let c = self.candy_pos.unwrap();
                        if self.start_path(walkable, here, spawn, c) {
                            self.state = ShopperState::GoingToCandies;
                            going = true;
                        }
                    }
                    if !going {
                        if self.start_path(walkable, here, spawn, spawn) {
                            self.state = ShopperState::GoingToExit;
                        }
                    }
                }
                ShopperStep::Idle
            },
            ShopperState::GoingToCandies => {
                let ready = match self.candy_pos {
                    Some(c) => shop.candy_exists(c),
                    None => false,
                };
                if !ready {
                    if self.start_path(walkable, here, spawn, spawn) {
                        self.state = ShopperState::GoingToExit;
                    }
                    return ShopperStep::Nothing;
                }
                if done {
                    let c = self.candy_pos.unwrap();
                    let ghost before = *shop;
                    shop.take_candy(c);
                    let ghost k = choose|k: int|
                        #![trigger before.objects@[k]]
                        candy_on(before.objects@[k], c) && (forall|m: int|
                            0 <= m < k ==> !candy_on(#[trigger] before.objects@[m], c)) && shop.took_from(before, k);
                    assert(first_candy(o, c, k));
                    self.candy_taken = true;
                    self.state = ShopperState::AtCandies;
                    return ShopperStep::WaitAtCandies;
                }
                ShopperStep::Walk
            },
            ShopperState::AtCandies => {
                if tick.timer_done {
                    shop.money = Money(shop.money.0 + balance.money_at_candy);
                    if self.start_path(walkable, here, spawn, spawn) {
                        self.state = ShopperState::GoingToExit;
                    }
                }
                ShopperStep::Idle
            },
            ShopperState::GoingToExit => {
                if !done {
                    return ShopperStep::Walk;
                }
                if self.heading_out && !tick.at_exit {
                    return ShopperStep::ApproachExit;
                }
                self.despawning = true;
                ShopperStep::Nothing
            },
        }
    }

    /// One decision step of the shopper (see `plan`), standing on `here`,
    /// with `spawn` the cell shoppers leave by: carries out the plan on the
    /// shopper and the shop and returns what the application is to do.
    pub fn update_fallback(
        &mut self,
        shop: &mut Shop,
        walkable: &Walkable,
        here: Node,
        spawn: Node,
        tick: Tick,
        balance: &Balance,
    ) -> (step: ShopperStep)
        requires
            bounded(walkable@),
            old(self).state == ShopperState::AtCassa && tick.timer_done ==> i32::MIN <= old(shop).money.0
                + balance.money_at_cassa <= i32::MAX,
            old(self).state == ShopperState::AtCandies && tick.timer_done ==> i32::MIN <= old(shop).money.0
                + balance.money_at_candy <= i32::MAX,
        ensures
            final(self).carried_out(
                *final(shop),
                *old(self),
                *old(shop),
                walkable@,
                here,
                plan(*old(self), *old(shop), walkable@, here, spawn, tick, *balance),
            ),
            step == plan(*old(self), *old(shop), walkable@, here, spawn, tick, *balance).step,
    {
        let ghost s0 = *self;
        let ghost o = *shop;
        match self.run_checks(shop, walkable, here, spawn) {
            Some(step) => step,
            None => {
                let ghost p = plan_checks(s0, o, walkable@, here, spawn).0;
                self.act(shop, walkable, here, spawn, tick, balance, Ghost(s0), Ghost(o), Ghost(p))
            },
        }
    }
}

/// Cells that shoppers may be sent to: for each object called `kind`
/// (holding food, where `need_food` says so), in order, the cell of its
/// main sprite moved `dy` rows up.
pub open spec fn targets(objs: Seq<Placed>, kind: Seq<char>, need_food: bool, dy: int) -> Seq<Node>
    decreases objs.len(),
{
    if objs.len() == 0 {
        Seq::empty()
    } else {
        let rest = targets(objs.drop_last(), kind, need_food, dy);
        let p = objs.last();
        if named(p, kind) && (!need_food || stocked(p)) {
            rest.push(Node { x: anchor(p.info).x, y: (anchor(p.info).y + dy) as i32 })
        } else {
            rest
        }
    }
}

/// The cells in front of the racks with food (shoppers stand one row
/// above a rack's cell).
pub open spec fn rack_targets(o: Shop) -> Seq<Node> {
    targets(o.objects@, "rack"@, true, 1)
}

/// The cells of the cash desks.
pub open spec fn cassa_targets(o: Shop) -> Seq<Node> {
    targets(o.objects@, "cassa"@, false, 0)
}

/// The cells of the candy stands with candies.
pub open spec fn candy_targets(o: Shop) -> Seq<Node> {
    targets(o.objects@, "candies"@, true, 0)
}

/// No rack with food lies in the top row of the coordinate range.
pub open spec fn racks_below_top(o: Shop) -> bool {
    forall|k: int|
        0 <= k < o.objects@.len() && named(#[trigger] o.objects@[k], "rack"@) && stocked(o.objects@[k])
            ==> anchor(o.objects@[k].info).y < i32::MAX
}

fn collect_targets(o: &Shop, kind: &str, need_food: bool, dy: i32) -> (r: Vec<Node>)
    requires
        dy == 0 || dy == 1,
        dy == 1 ==> forall|k: int|
            0 <= k < o.objects@.len() && named(#[trigger] o.objects@[k], kind@) && (!need_food || stocked(o.objects@[k]))
                ==> anchor(o.objects@[k].info).y < i32::MAX,
    ensures
        r@ == targets(o.objects@, kind@, need_food, dy as int),
{
    let mut r: Vec<Node> = Vec::new();
    let mut k: usize = 0;
    while k < o.objects.len()
        invariant
            k <= o.objects@.len(),
            dy == 0 || dy == 1,
            dy == 1 ==> forall|m: int|
                0 <= m < o.objects@.len() && named(#[trigger] o.objects@[m], kind@) && (!need_food || stocked(o.objects@[m]))
                    ==> anchor(o.objects@[m].info).y < i32::MAX,
            r@ == targets(o.objects@.take(k as int), kind@, need_food, dy as int),
        decreases o.objects@.len() - k,
    {
        let p = &o.objects[k];
        proof {
            assert(o.objects@.take(k + 1).drop_last() =~= o.objects@.take(k as int));
            assert(o.objects@.take(k + 1).last() == o.objects@[k as int]);
        }
        if str_eq(p.tag.name.as_str(), kind) {
            let has_food = match p.food {
                Some(f) => f.food_count > 0,
                None => false,
            };
            if !need_food || has_food {
                let a = anchor_cell(&p.info);
                r.push(Node { x: a.x, y: a.y + dy });
            }
        }
        k = k + 1;
    }
    assert(o.objects@.take(k as int) =~= o.objects@);
    r
}

/// `s` is a shopper just spawned at `spawn` on its way to `rack` along a
/// shortest route over `w`, with the given cash desk and candy stand.
pub open spec fn fresh_shopper(s: ShopperNpc, w: Set<Node>, spawn: Node, rack: Node, cassa: Node, candy: Option<Node>) -> bool {
    &&& shortest_walk(w, s.path@, spawn, rack)
    &&& s.path_index == 1
    &&& s.state == ShopperState::GoingToRack
    &&& s.rack_pos == rack
    &&& s.cassa_pos == cassa
    &&& s.candy_pos == candy
    &&& !s.candy_taken && !s.heading_out && !s.exiting && !s.food_taken && !s.despawning
}

/// The shoppers of the shop and the count of shoppers spawned so far,
/// which picks each one's looks. Spawn timers are the application's.
pub struct ShopperManager {
    pub shoppers: Vec<ShopperNpc>,
    pub index: usize,
}

/// `new` is `old` after `ShopperManager::spawn_shopper` ran with these
/// arguments and answered `r`.
pub open spec fn spawn_post(
    old: ShopperManager,
    new: ShopperManager,
    shop: Shop,
    w: Set<Node>,
    spawn: Node,
    seed: u32,
    r: Option<usize>,
) -> bool {
    let racks = rack_targets(shop);
    let cassas = cassa_targets(shop);
    let candies = candy_targets(shop);
    let rack = racks[(seed as usize) as int % racks.len() as int];
    let cassa = cassas[((seed >> 16u32) as usize) as int % cassas.len() as int];
    let candy = if candies.len() > 0 {
        Some(candies[((seed >> 8u32) as usize) as int % candies.len() as int])
    } else {
        None
    };
    if racks.len() == 0 || cassas.len() == 0 {
        &&& r is None
        &&& new.index == old.index
        &&& new.shoppers@ == old.shoppers@
    } else {
        &&& new.index == old.index + 1
        &&& (r is Some <==> routes(w, spawn, rack))
        &&& (r matches Some(looks) ==> looks == old.index % 3
            && new.shoppers@.len() == old.shoppers@.len() + 1
            && new.shoppers@.drop_last() == old.shoppers@
            && fresh_shopper(new.shoppers@.last(), w, spawn, rack, cassa, candy))
        &&& (r is None ==> new.shoppers@ == old.shoppers@)
    }
}

impl ShopperManager {
    /// No shoppers yet.
    pub fn new() -> (m: ShopperManager)
        ensures
            m.shoppers@.len() == 0,
            m.index == 0,
    {
        ShopperManager { shoppers: Vec::new(), index: 0 }
    }

    /// Removes every shopper and restarts the count.
    pub fn clear(&mut self)
        ensures
            final(self).shoppers@.len() == 0,
            final(self).index == 0,
    {
        self.shoppers = Vec::new();
        self.index = 0;
    }

    /// Opens (`true`) or closes the shop: when it closes every shopper
    /// leaves; when it opens again those without food come back.
    pub fn set_active(&mut self, active: bool)
        ensures
            final(self).index == old(self).index,
            final(self).shoppers@.len() == old(self).shoppers@.len(),
            forall|k: int| 0 <= k < old(self).shoppers@.len() ==> {
                let a = #[trigger] old(self).shoppers@[k];
                let b = final(self).shoppers@[k];
                &&& b.exiting == if active { if a.food_taken { a.exiting } else { false } } else { true }
                &&& b.state == a.state && b.path == a.path && b.path_index == a.path_index
                &&& b.rack_pos == a.rack_pos && b.cassa_pos == a.cassa_pos && b.candy_pos == a.candy_pos
                &&& b.candy_taken == a.candy_taken && b.heading_out == a.heading_out
                &&& b.food_taken == a.food_taken && b.despawning == a.despawning
            },
    {
        let mut k: usize = 0;
        while k < self.shoppers.len()
            invariant
                self.index == old(self).index,
                self.shoppers@.len() == old(self).shoppers@.len(),
                k <= self.shoppers@.len(),
                forall|m: int| k <= m < self.shoppers@.len() ==> #[trigger] self.shoppers@[m] == old(self).shoppers@[m],
                forall|m: int| 0 <= m < k ==> {
                    let a = #[trigger] old(self).shoppers@[m];
                    let b = self.shoppers@[m];
                    &&& b.exiting == if active { if a.food_taken { a.exiting } else { false } } else { true }
                    &&& b.state == a.state && b.path == a.path && b.path_index == a.path_index
                    &&& b.rack_pos == a.rack_pos && b.cassa_pos == a.cassa_pos && b.candy_pos == a.candy_pos
                    &&& b.candy_taken == a.candy_taken && b.heading_out == a.heading_out
                    &&& b.food_taken == a.food_taken && b.despawning == a.despawning
                },
            decreases self.shoppers@.len() - k,
        {
            let mut sh = self.shoppers.remove(k);
            if active {
                if !sh.has_taken_food() {
                    sh.set_exiting(false);
                }
            } else {
                sh.set_exiting(true);
            }
            self.shoppers.insert(k, sh);
            k = k + 1;
        }
    }

    /// Spawns a shopper at `spawn` unless the shop lacks a rack with food
    /// or a cash desk. `seed` picks the rack (`seed` modulo their number),
    /// the desk (`seed >> 16`) and, where there are any, the candy stand
    /// (`seed >> 8`). The count advances whenever the shop has both; the
    /// shopper joins when a route leads to its rack, and then its looks
    /// (the count before, modulo 3) come back.
    pub fn spawn_shopper(&mut self, shop: &Shop, walkable: &Walkable, spawn: Node, seed: u32) -> (r: Option<usize>)
        requires
            bounded(walkable@),
            racks_below_top(*shop),
            old(self).index < usize::MAX,
        ensures
            spawn_post(*old(self), *final(self), *shop, walkable@, spawn, seed, r),
    {
        let racks = collect_targets(shop, "rack", true, 1);
        let cassas = collect_targets(shop, "cassa", false, 0);
        let candies = collect_targets(shop, "candies", true, 0);
        if racks.len() == 0 || cassas.len() == 0 {
            return None;
        }
        let rack = racks[(seed as usize) % racks.len()];
        let cassa = cassas[((seed >> 16u32) as usize) % cassas.len()];
        let candy = if candies.len() > 0 {
            Some(candies[((seed >> 8u32) as usize) % candies.len()])
        } else {
            None
        };
        let looks = self.index % 3;
        self.index = self.index + 1;
        match ShopperNpc::spawn(walkable, spawn, rack, cassa, candy) {
            Some(sh) => {
                self.shoppers.push(sh);
                proof {
                    assert(self.shoppers@.drop_last() =~= old(self).shoppers@);
                }
                Some(looks)
            },
            None => None,
        }
    }

    /// Spawns a shopper (see `spawn_shopper`) when the shop is open, the
    /// spawn timer or the cooldown after a departure says one is due
    /// (`due`) and fewer than `max_shoppers` are in the shop; otherwise
    /// nothing changes. So no shopper arrives while the shop is closed and
    /// the count never passes the maximum.
    pub fn spawn_if_due(
        &mut self,
        shop: &Shop,
        walkable: &Walkable,
        spawn: Node,
        seed: u32,
        active: bool,
        due: bool,
        max_shoppers: usize,
    ) -> (r: Option<usize>)
        requires
            bounded(walkable@),
            racks_below_top(*shop),
            old(self).index < usize::MAX,
        ensures
            active && due && old(self).shoppers@.len() < max_shoppers ==> spawn_post(
                *old(self),
                *final(self),
                *shop,
                walkable@,
                spawn,
                seed,
                r,
            ),
            !(active && due && old(self).shoppers@.len() < max_shoppers) ==> r is None && *final(self) == *old(self),
            final(self).shoppers@.len() <= old(self).shoppers@.len() + 1,
            old(self).shoppers@.len() <= max_shoppers ==> final(self).shoppers@.len() <= max_shoppers,
            !active ==> final(self).shoppers@ == old(self).shoppers@,
    {
        if active && due && self.shoppers.len() < max_shoppers {
            self.spawn_shopper(shop, walkable, spawn, seed)
        } else {
            None
        }
    }
}

/// Queueing at the cash desk: a shopper takes food from the rack only
/// when its desk is free, and then claims the desk.
pub proof fn law_desk_claim(s: ShopperNpc, o: Shop, w: Set<Node>, here: Node, spawn: Node, tick: Tick, b: Balance)
    ensures
        plan(s, o, w, here, spawn, tick, b).takes_food ==> {
            let p = plan(s, o, w, here, spawn, tick, b);
            &&& p.food_taken
            &&& p.busy.contains(p.cassa_pos)
            &&& !o.busy_cassas.0@.contains(p.cassa_pos)
        },
{
    let (p4, stop) = plan_checks(s, o, w, here, spawn);
    if !stop && p4.state == ShopperState::GoingToRack && !(p4.route is None && s.path_index >= s.path@.len()) {
    } else if !stop && p4.state == ShopperState::GoingToRack && !s.exiting {
        let gone = !o.cassa_at(p4.cassa_pos);
        if gone && o.first_cassa() is Some {
            let c = o.first_cassa()->0;
            let k = choose|k: int| o.first_cassa_index(k);
            assert(o.first_cassa_index(k));
            assert(cassa_on_cell(o, k, c));
        }
    }
}

/// A cash desk stands on cell `c` as object `k`.
spec fn cassa_on_cell(o: Shop, k: int, c: Node) -> bool {
    0 <= k < o.objects@.len() && crate::shop::cassa_on(o.objects@[k], c)
}

/// A shopper brings money only when a wait ends: the desk's amount after
/// the wait at the cash desk, the candy amount after the wait at the candy
/// stand; and it takes at most one thing from the shop per step.
pub proof fn law_shopper_income(s: ShopperNpc, o: Shop, w: Set<Node>, here: Node, spawn: Node, tick: Tick, b: Balance)
    ensures
        ({
            let p = plan(s, o, w, here, spawn, tick, b);
            &&& p.money == o.money.0 || (s.state == ShopperState::AtCassa && tick.timer_done && p.money == o.money.0
                + b.money_at_cassa) || (s.state == ShopperState::AtCandies && tick.timer_done && p.money
                == o.money.0 + b.money_at_candy)
            &&& !(p.takes_food && p.takes_candy)
        }),
{
}

/// A shopper that was sent out while new shoppers were not wanted, and
/// that has no food yet, turns back to its rack once they are wanted
/// again: given what `update_fallback` ensures of the shopper `s2` and the
/// shop `o2` after a step, and where a route leads from its cell to its
/// rack, it is going to the rack along a shortest walk there, walking.
pub proof fn law_reopened_shopper_returns(
    s: ShopperNpc,
    o: Shop,
    s2: ShopperNpc,
    o2: Shop,
    w: Set<Node>,
    here: Node,
    spawn: Node,
    tick: Tick,
    b: Balance,
    step: ShopperStep,
)
    requires
        s2.carried_out(o2, s, o, w, here, plan(s, o, w, here, spawn, tick, b)),
        step == plan(s, o, w, here, spawn, tick, b).step,
        !s.exiting,
        !s.food_taken,
        s.state == ShopperState::GoingToExit,
        routes(w, here, s.rack_pos),
    ensures
        s2.state == ShopperState::GoingToRack,
        shortest_walk(w, s2.path@, here, s.rack_pos),
        s2.path_index == 0,
        !s2.food_taken,
        step == ShopperStep::Walk,
{
}

/// The cell `dy` rows from an object's main sprite.
pub open spec fn shifted(p: Placed, dy: int) -> Node {
    Node { x: anchor(p.info).x, y: (anchor(p.info).y + dy) as i32 }
}

/// When the shop closes, a shopper on its way to the rack without food
/// (its rack still stocked and its cash desk still there) heads out: it
/// goes to the spawn cell along a shortest walk, walking, where a route
/// leads there.
pub proof fn law_closed_shop_sends_home(
    s: ShopperNpc,
    o: Shop,
    s2: ShopperNpc,
    o2: Shop,
    w: Set<Node>,
    here: Node,
    spawn: Node,
    tick: Tick,
    b: Balance,
    step: ShopperStep,
)
    requires
        s2.carried_out(o2, s, o, w, here, plan(s, o, w, here, spawn, tick, b)),
        step == plan(s, o, w, here, spawn, tick, b).step,
        s.exiting,
        !s.food_taken,
        s.state == ShopperState::GoingToRack,
        o.cassa_at(s.cassa_pos),
        o.rack_ready(s.rack_pos),
        routes(w, here, spawn),
    ensures
        s2.state == ShopperState::GoingToExit,
        s2.heading_out,
        shortest_walk(w, s2.path@, here, spawn),
        s2.path_index == 0,
        step == ShopperStep::Walk,
{
}

/// A shopper without food whose rack is gone or empty fades out, and
/// takes nothing.
pub proof fn law_empty_rack_fades(
    s: ShopperNpc,
    o: Shop,
    s2: ShopperNpc,
    o2: Shop,
    w: Set<Node>,
    here: Node,
    spawn: Node,
    tick: Tick,
    b: Balance,
)
    requires
        s2.carried_out(o2, s, o, w, here, plan(s, o, w, here, spawn, tick, b)),
        !s.food_taken,
        s.state == ShopperState::GoingToRack,
        o.cassa_at(s.cassa_pos),
        !o.rack_ready(s.rack_pos),
    ensures
        s2.despawning,
        !s2.food_taken,
        !plan(s, o, w, here, spawn, tick, b).takes_food,
        o2.money == o.money,
{
}

/// Every target cell picked from the shop's objects of a kind stands
/// (shifted by `dy` rows) at such an object, and there is one whenever
/// the shop holds such an object.
proof fn lemma_targets(objs: Seq<Placed>, kind: Seq<char>, need_food: bool, dy: int)
    ensures
        (exists|k: int| 0 <= k < objs.len() && named(#[trigger] objs[k], kind) && (!need_food || stocked(objs[k])))
            ==> targets(objs, kind, need_food, dy).len() > 0,
        forall|i: int|
            0 <= i < targets(objs, kind, need_food, dy).len() ==> exists|k: int|
                0 <= k < objs.len() && named(#[trigger] objs[k], kind) && (!need_food || stocked(objs[k]))
                    && #[trigger] targets(objs, kind, need_food, dy)[i] == shifted(objs[k], dy),
    decreases objs.len(),
{
    if objs.len() > 0 {
        let init = objs.drop_last();
        lemma_targets(init, kind, need_food, dy);
        let t = targets(objs, kind, need_food, dy);
        let t0 = targets(init, kind, need_food, dy);
        let p = objs.last();
        if exists|k: int| 0 <= k < objs.len() && named(#[trigger] objs[k], kind) && (!need_food || stocked(objs[k])) {
            let k = choose|k: int| 0 <= k < objs.len() && named(#[trigger] objs[k], kind) && (!need_food || stocked(objs[k]));
            if k < objs.len() - 1 {
                assert(init[k] == objs[k]);
            }
        }
        assert forall|i: int| #![trigger t[i]] 0 <= i < t.len() implies exists|k: int|
            0 <= k < objs.len() && named(#[trigger] objs[k], kind) && (!need_food || stocked(objs[k])) && t[i] == shifted(objs[k], dy) by {
            if i < t0.len() {
                assert(t[i] == t0[i]);
                let k = choose|k: int|
                    0 <= k < init.len() && named(#[trigger] init[k], kind) && (!need_food || stocked(init[k])) && t0[i]
                        == Node { x: anchor(init[k].info).x, y: (anchor(init[k].info).y + dy) as i32 };
                assert(objs[k] == init[k]);
            } else {
                assert(objs[objs.len() - 1] == p);
            }
        }
    }
}

/// A shopper spawned into a shop with a stocked candy stand is given one:
/// its candy stand is the cell of a candy stand that holds candies. Its
/// rack is the cell in front of a rack with food, and its cash desk the
/// cell of a cash desk.
pub proof fn law_spawned_shopper_targets(
    old: ShopperManager,
    new: ShopperManager,
    shop: Shop,
    w: Set<Node>,
    spawn: Node,
    seed: u32,
    looks: usize,
)
    requires
        spawn_post(old, new, shop, w, spawn, seed, Some(looks)),
    ensures
        ({
            let sh = new.shoppers@.last();
            let objs = shop.objects@;
            &&& (exists|k: int| 0 <= k < objs.len() && #[trigger] named(objs[k], "candies"@) && stocked(objs[k]))
                ==> (sh.candy_pos is Some && exists|k: int|
                0 <= k < objs.len() && #[trigger] named(objs[k], "candies"@) && stocked(objs[k]) && anchor(objs[k].info)
                    == sh.candy_pos->0)
            &&& exists|k: int|
                0 <= k < objs.len() && #[trigger] named(objs[k], "rack"@) && stocked(objs[k]) && sh.rack_pos == shifted(objs[k], 1)
            &&& exists|k: int| 0 <= k < objs.len() && #[trigger] named(objs[k], "cassa"@) && sh.cassa_pos == anchor(objs[k].info)
        }),
{
    let objs = shop.objects@;
    lemma_targets(objs, "candies"@, true, 0);
    lemma_targets(objs, "rack"@, true, 1);
    lemma_targets(objs, "cassa"@, false, 0);
    let racks = rack_targets(shop);
    let cassas = cassa_targets(shop);
    let candies = candy_targets(shop);
    let ri = (seed as usize) as int % racks.len() as int;
    let ci = ((seed >> 16u32) as usize) as int % cassas.len() as int;
    assert(0 <= ri < racks.len());
    assert(0 <= ci < cassas.len());
    if candies.len() > 0 {
        let di = ((seed >> 8u32) as usize) as int % candies.len() as int;
        assert(0 <= di < candies.len());
        let k = choose|k: int|
            0 <= k < objs.len() && named(#[trigger] objs[k], "candies"@) && (!true || stocked(objs[k])) && candies[di]
                == Node { x: anchor(objs[k].info).x, y: (anchor(objs[k].info).y + 0) as i32 };
        assert(anchor(objs[k].info) == candies[di]);
    }
    let k = choose|k: int|
        0 <= k < objs.len() && named(#[trigger] objs[k], "cassa"@) && (!false || stocked(objs[k])) && cassas[ci]
            == Node { x: anchor(objs[k].info).x, y: (anchor(objs[k].info).y + 0) as i32 };
    assert(anchor(objs[k].info) == cassas[ci]);
}

} // verus!
