//! The shop floor: placed objects, the cells on which each kind of object
//! may stand, the player's money and the cash desks in use.

use vstd::prelude::*;
use crate::pathfinding::Node;
use crate::cells::{CellSet, TokenMap};
use crate::catalog::{
    Slot, Object, listed, carpet_name_list, light_names, walldecor_names, outdoor_name_list,
    flower_name_list, configured_price, object_price, is_carpet_name, is_light_name,
    is_wall_decor_name, is_outdoor_name, is_flower_name,
};
use crate::text::str_eq;

verus! {

/// Group id of a sprite that belongs to a placed object.
#[derive(Debug)]
pub struct GroupComponent {
    pub group_id: u32,
}

/// Name of a placed object (`box`, `table`, `rack`, ...).
#[derive(Debug)]
pub struct ObjectTag {
    pub name: String,
}

/// Food held by a box, a rack or a candy stand.
#[derive(Clone, Copy, Debug, PartialEq, Eq, Structural)]
pub struct FoodStorage {
    pub food_count: i32,
    pub max_food: i32,
}

/// Food stocked in the whole shop.
pub struct TotalFood(pub i32);

/// The player's money.
pub struct Money(pub i32);

/// Cells of the cash desks at which a shopper is being served.
pub struct BusyCassas(pub CellSet);

/// Whether the shop has its (single) basement staircase.
pub struct BasementPlaced(pub bool);

/// A fence piece, whose sprite depends on its neighbours.
#[derive(Debug)]
pub struct FenceComponent {
    pub name: String,
}

/// Footprint and layer of a placed object. `spanning` objects are drawn
/// as one stretched sprite centred on the footprint; the others have a
/// sprite on every cell.
#[derive(Clone, Copy, Debug, PartialEq, Eq, Structural)]
pub struct GroupInfo {
    pub group_id: u32,
    pub width: i32,
    pub height: i32,
    pub pos_x: i32,
    pub pos_y: i32,
    pub is_carpet: bool,
    pub is_light: bool,
    pub spanning: bool,
}

/// An object placed in the shop, with the components of its main sprite.
pub struct Placed {
    pub info: GroupInfo,
    pub tag: ObjectTag,
    /// Texture of the object's sprites.
    pub texture: String,
    pub food: Option<FoodStorage>,
    pub fence: Option<FenceComponent>,
}

/// The state of the shop that placement and shoppers read and change.
pub struct Shop {
    pub objects: Vec<Placed>,
    pub next_group_id: u32,
    pub money: Money,
    pub total_food: TotalFood,
    pub busy_cassas: BusyCassas,
    /// Groups that food was just added to (for the scene's animations).
    pub pending_food_adds: Vec<u32>,
    pub basement_placed: BasementPlaced,
    pub current_level: i32,
    pub floor_positions: CellSet,
    pub wall_positions: CellSet,
    pub outdoor_positions: CellSet,
    pub flower_positions: CellSet,
    /// Floor cells built by the player, and cells where floor may be built.
    pub floor_placed_positions: CellSet,
    pub floor_placeable_positions: CellSet,
    /// The map's tokens by row and column (row 0 is y = 14, column 0 is
    /// x = -21), and each cell's token as the map file gave it.
    pub map_grid: Vec<Vec<String>>,
    pub original_tokens: TokenMap,
}

impl Shop {
    /// An empty shop on level 0: no objects, no money, no map yet; group
    /// ids start at 1.
    pub fn new() -> (s: Shop)
        ensures
            s.wf(),
            s.objects@.len() == 0,
            s.next_group_id == 1,
            s.money.0 == 0,
            s.total_food.0 == 0,
            s.busy_cassas.0@ == Set::<Node>::empty(),
            s.pending_food_adds@.len() == 0,
            !s.basement_placed.0,
            s.current_level == 0,
            s.floor_positions@ == Set::<Node>::empty(),
            s.wall_positions@ == Set::<Node>::empty(),
            s.outdoor_positions@ == Set::<Node>::empty(),
            s.flower_positions@ == Set::<Node>::empty(),
            s.floor_placed_positions@ == Set::<Node>::empty(),
            s.floor_placeable_positions@ == Set::<Node>::empty(),
            s.map_grid@.len() == 0,
            s.original_tokens@ == Map::<Node, Seq<char>>::empty(),
    {
        Shop {
            objects: Vec::new(),
            next_group_id: 1,
            money: Money(0),
            total_food: TotalFood(0),
            busy_cassas: BusyCassas(CellSet::new()),
            pending_food_adds: Vec::new(),
            basement_placed: BasementPlaced(false),
            current_level: 0,
            floor_positions: CellSet::new(),
            wall_positions: CellSet::new(),
            outdoor_positions: CellSet::new(),
            flower_positions: CellSet::new(),
            floor_placed_positions: CellSet::new(),
            floor_placeable_positions: CellSet::new(),
            map_grid: Vec::new(),
            original_tokens: TokenMap::new(),
        }
    }
}

/// Half of `v`, rounded toward zero (as a float cast to an integer is).
pub open spec fn trunc_half(v: int) -> int {
    if v >= 0 { v / 2 } else { -((-v) / 2) }
}

/// Cell of the main sprite of an object: its corner cell, or, for a
/// spanning sprite, the cell that the centre of the footprint rounds to.
pub open spec fn anchor(g: GroupInfo) -> Node {
    if g.spanning {
        Node {
            x: trunc_half(2 * g.pos_x + g.width - 1) as i32,
            y: trunc_half(2 * g.pos_y + g.height - 1) as i32,
        }
    } else {
        Node { x: g.pos_x, y: g.pos_y }
    }
}

/// The footprint of the object covers cell (`x`, `y`).
pub open spec fn covers(g: GroupInfo, x: int, y: int) -> bool {
    g.pos_x <= x < g.pos_x + g.width && g.pos_y <= y < g.pos_y + g.height
}

/// Removal priority of an object on a cell: decor first, then lights,
/// then carpets.
pub open spec fn rank(g: GroupInfo) -> int {
    if !g.is_carpet && !g.is_light {
        0
    } else if g.is_light {
        1
    } else {
        2
    }
}

/// A new object of the given layer may not share a cell with `g`: carpets
/// clash with carpets, lights with lights, other objects with other objects.
pub open spec fn clashes(is_carpet: bool, is_light: bool, g: GroupInfo) -> bool {
    if is_carpet {
        g.is_carpet
    } else if is_light {
        g.is_light
    } else {
        !g.is_carpet && !g.is_light
    }
}

/// `v` lies in the half-open range from `lo` of length `len`.
pub open spec fn within(v: int, lo: int, len: int) -> bool {
    lo <= v < lo + len
}

impl Shop {
    /// The geometry of the object at index `k`.
    pub open spec fn info(self, k: int) -> GroupInfo {
        self.objects@[k].info
    }

    /// Cells allowed for an object of the given category.
    pub open spec fn allowed(self, is_wall_decor: bool, is_outdoor: bool, is_flower: bool) -> Set<Node> {
        if is_flower {
            self.flower_positions@
        } else if is_outdoor {
            self.outdoor_positions@
        } else if is_wall_decor {
            self.wall_positions@
        } else {
            self.floor_positions@
        }
    }

    /// Every cell of the footprint at (`x`, `y`) of size `width` × `height`
    /// is allowed for the category, and no footprint of an object that the
    /// new one clashes with covers any of them.
    pub open spec fn placeable(
        self,
        x: int,
        y: int,
        width: int,
        height: int,
        is_carpet: bool,
        is_light: bool,
        is_wall_decor: bool,
        is_outdoor: bool,
        is_flower: bool,
    ) -> bool {
        &&& forall|cx: int, cy: int|
            within(cx, x, width) && within(cy, y, height) ==> #[trigger] self.allowed(
                is_wall_decor,
                is_outdoor,
                is_flower,
            ).contains(Node { x: cx as i32, y: cy as i32 })
        &&& forall|cx: int, cy: int, k: int|
            within(cx, x, width) && within(cy, y, height) && 0 <= k < self.objects@.len() && #[trigger] covers(
                self.info(k),
                cx,
                cy,
            ) ==> !clashes(is_carpet, is_light, self.info(k))
    }
}

/// Cell of the main sprite of an object.
pub fn anchor_cell(g: &GroupInfo) -> (n: Node)
    ensures
        n == anchor(*g),
{
    if g.spanning {
        let sx: i64 = 2 * (g.pos_x as i64) + (g.width as i64) - 1;
        let sy: i64 = 2 * (g.pos_y as i64) + (g.height as i64) - 1;
        let hx: i64 = if sx >= 0 { sx / 2 } else { -((-sx) / 2) };
        let hy: i64 = if sy >= 0 { sy / 2 } else { -((-sy) / 2) };
        Node { x: hx as i32, y: hy as i32 }
    } else {
        Node { x: g.pos_x, y: g.pos_y }
    }
}

/// Whether the footprint of the object covers cell (`x`, `y`).
pub fn covers_cell(g: &GroupInfo, x: i32, y: i32) -> (b: bool)
    ensures
        b == covers(*g, x as int, y as int),
{
    (g.pos_x as i64) <= (x as i64) && (x as i64) < (g.pos_x as i64) + (g.width as i64) && (g.pos_y as i64) <= (
    y as i64) && (y as i64) < (g.pos_y as i64) + (g.height as i64)
}

impl Shop {
    /// Whether an object of size `width` × `height` of the given category
    /// may be placed with its corner at (`x`, `y`): every cell must be
    /// allowed for the category (floor for ordinary objects, carpets and
    /// lights; walls for wall decor; grass for outdoor objects and
    /// flowers) and not covered by the footprint of an object it clashes
    /// with.
    pub fn can_place_at(
        &self,
        x: i32,
        y: i32,
        width: i32,
        height: i32,
        is_carpet: bool,
        is_light: bool,
        is_wall_decor: bool,
        is_outdoor: bool,
        is_flower: bool,
    ) -> (b: bool)
        requires
            x + width - 1 <= i32::MAX,
            y + height - 1 <= i32::MAX,
        ensures
            b == self.placeable(
                x as int,
                y as int,
                width as int,
                height as int,
                is_carpet,
                is_light,
                is_wall_decor,
                is_outdoor,
                is_flower,
            ),
    {
        let ghost allowed = self.allowed(is_wall_decor, is_outdoor, is_flower);
        let mut i: i32 = 0;
        while i < width
            invariant
                0 <= i,
                width > 0 ==> i <= width,
                x + width - 1 <= i32::MAX,
                y + height - 1 <= i32::MAX,
                allowed == self.allowed(is_wall_decor, is_outdoor, is_flower),
                forall|cx: int, cy: int|
                    x <= cx < x + i && within(cy, y as int, height as int) ==> #[trigger] allowed.contains(
                        Node { x: cx as i32, y: cy as i32 },
                    ),
            decreases width - i,
        {
            let mut j: i32 = 0;
            while j < height
                invariant
                    0 <= i < width,
                    0 <= j,
                    height > 0 ==> j <= height,
                    x + width - 1 <= i32::MAX,
                    y + height - 1 <= i32::MAX,
                    allowed == self.allowed(is_wall_decor, is_outdoor, is_flower),
                    forall|cx: int, cy: int|
                        x <= cx < x + i && within(cy, y as int, height as int) ==> #[trigger] allowed.contains(
                            Node { x: cx as i32, y: cy as i32 },
                        ),
                    forall|cy: int|
                        y <= cy < y + j ==> #[trigger] allowed.contains(
                            Node { x: (x + i) as i32, y: cy as i32 },
                        ),
                decreases height - j,
            {
                let c = Node { x: x + i, y: y + j };
                let ok = if is_flower {
                    self.flower_positions.contains(c)
                } else if is_outdoor {
                    self.outdoor_positions.contains(c)
                } else if is_wall_decor {
                    self.wall_positions.contains(c)
                } else {
                    self.floor_positions.contains(c)
                };
                if !ok {
                    return false;
                }
                j = j + 1;
            }
            i = i + 1;
        }
        let mut i: i32 = 0;
        while i < width
            invariant
                0 <= i,
                width > 0 ==> i <= width,
                x + width - 1 <= i32::MAX,
                y + height - 1 <= i32::MAX,
                forall|cx: int, cy: int|
                    within(cx, x as int, width as int) && within(cy, y as int, height as int) ==> #[trigger] allowed.contains(
                        Node { x: cx as i32, y: cy as i32 },
                    ),
                allowed == self.allowed(is_wall_decor, is_outdoor, is_flower),
                forall|cx: int, cy: int, k: int|
                    x <= cx < x + i && within(cy, y as int, height as int) && 0 <= k < self.objects@.len()
                        && #[trigger] covers(self.info(k), cx, cy) ==> !clashes(is_carpet, is_light, self.info(k)),
            decreases width - i,
        {
            let mut j: i32 = 0;
            while j < height
                invariant
                    0 <= i < width,
                    0 <= j,
                    height > 0 ==> j <= height,
                    x + width - 1 <= i32::MAX,
                    y + height - 1 <= i32::MAX,
                    forall|cx: int, cy: int, k: int|
                        x <= cx < x + i && within(cy, y as int, height as int) && 0 <= k < self.objects@.len()
                            && #[trigger] covers(self.info(k), cx, cy) ==> !clashes(is_carpet, is_light, self.info(k)),
                    forall|cy: int, k: int|
                        y <= cy < y + j && 0 <= k < self.objects@.len() && #[trigger] covers(self.info(k), x + i, cy)
                            ==> !clashes(is_carpet, is_light, self.info(k)),
                decreases height - j,
            {
                let cx = x + i;
                let cy = y + j;
                let mut k: usize = 0;
                while k < self.objects.len()
                    invariant
                        0 <= i < width,
                        0 <= j < height,
                        cx == x + i,
                        cy == y + j,
                        k <= self.objects@.len(),
                        forall|m: int| 0 <= m < k && #[trigger] covers(self.info(m), cx as int, cy as int)
                            ==> !clashes(is_carpet, is_light, self.info(m)),
                    decreases self.objects@.len() - k,
                {
                    let g = &self.objects[k].info;
                    if covers_cell(g, cx, cy) {
                        let clash = if is_carpet {
                            g.is_carpet
                        } else if is_light {
                            g.is_light
                        } else {
                            !g.is_carpet && !g.is_light
                        };
                        if clash {
                            proof {
                                assert(covers(self.info(k as int), cx as int, cy as int));
                                assert(within(cx as int, x as int, width as int));
                                assert(within(cy as int, y as int, height as int));
                            }
                            return false;
                        }
                    }
                    k = k + 1;
                }
                j = j + 1;
            }
            i = i + 1;
        }
        true
    }
}

impl Shop {
    /// Group ids are distinct and below the next id to hand out.
    pub open spec fn wf(self) -> bool {
        &&& forall|k: int| 0 <= k < self.objects@.len() ==> #[trigger] self.info(k).group_id < self.next_group_id
        &&& forall|k: int, m: int|
            0 <= k < m < self.objects@.len() ==> #[trigger] self.info(k).group_id != #[trigger] self.info(m).group_id
    }

    /// Well-formedness depends on the objects and the id counter alone.
    pub proof fn lemma_wf_same_objects(self, other: Shop)
        requires
            self.wf(),
            self.objects@ == other.objects@,
            self.next_group_id == other.next_group_id,
        ensures
            other.wf(),
    {
        assert forall|k: int| 0 <= k < other.objects@.len() implies #[trigger] other.info(k).group_id
            < other.next_group_id by {
            assert(other.info(k) == self.info(k));
        }
        assert forall|k: int, m: int|
            0 <= k < m < other.objects@.len() implies #[trigger] other.info(k).group_id != #[trigger] other.info(
                m,
            ).group_id by {
            assert(other.info(k) == self.info(k));
            assert(other.info(m) == self.info(m));
        }
    }

    /// Index of the object with group id `id`.
    pub open spec fn has_id(self, k: int, id: u32) -> bool {
        0 <= k < self.objects@.len() && self.info(k).group_id == id
    }

    /// The object at index `k` is the one picked at cell (`x`, `y`): its
    /// footprint covers the cell, no covering footprint has a higher removal
    /// priority, and every covering footprint listed before it has a lower
    /// one (the first of the highest priority is picked).
    pub open spec fn first_pick(self, k: int, x: int, y: int) -> bool {
        &&& 0 <= k < self.objects@.len()
        &&& covers(self.info(k), x, y)
        &&& forall|m: int| 0 <= m < self.objects@.len() && #[trigger] covers(self.info(m), x, y) ==> rank(self.info(k)) <= rank(self.info(m))
        &&& forall|m: int| 0 <= m < k && #[trigger] covers(self.info(m), x, y) ==> rank(self.info(k)) < rank(self.info(m))
    }

    /// At most one object is the first pick at a cell.
    pub proof fn lemma_first_pick_unique(self, k: int, j: int, x: int, y: int)
        requires
            self.first_pick(k, x, y),
            self.first_pick(j, x, y),
        ensures
            k == j,
    {
        if k < j {
            assert(covers(self.info(k), x, y));
        } else if j < k {
            assert(covers(self.info(j), x, y));
        }
    }

    /// The object to pick at cell (`x`, `y`): a group whose footprint covers
    /// the cell and whose removal priority is the highest among those that
    /// cover it (decor before lights, lights before carpets). `None` when
    /// no footprint covers the cell. Among several groups of the same
    /// priority the first listed is returned (see `first_pick`).
    pub fn find_group_at_position(&self, x: i32, y: i32) -> (r: Option<u32>)
        ensures
            r is None <==> forall|k: int| 0 <= k < self.objects@.len() ==> !#[trigger] covers(self.info(k), x as int, y as int),
            r matches Some(id) ==> exists|k: int| #![trigger self.info(k)] self.has_id(k, id) && self.first_pick(k, x as int, y as int),
            r matches Some(id) ==> exists|k: int|
                #![trigger self.info(k)]
                self.has_id(k, id) && covers(self.info(k), x as int, y as int) && forall|m: int|
                    0 <= m < self.objects@.len() && #[trigger] covers(self.info(m), x as int, y as int) ==> rank(
                        self.info(k),
                    ) <= rank(self.info(m)),
    {
        let mut light: Option<usize> = None;
        let mut carpet: Option<usize> = None;
        let mut k: usize = 0;
        while k < self.objects.len()
            invariant
                k <= self.objects@.len(),
                forall|m: int| 0 <= m < k && #[trigger] covers(self.info(m), x as int, y as int) ==> rank(self.info(m)) >= 1,
                light matches Some(l) ==> l < k && covers(self.info(l as int), x as int, y as int) && rank(self.info(l as int)) == 1,
                light matches Some(l) ==> forall|m: int| 0 <= m < l && #[trigger] covers(self.info(m), x as int, y as int) ==> rank(self.info(m)) >= 2,
                light is None ==> forall|m: int| 0 <= m < k && #[trigger] covers(self.info(m), x as int, y as int) ==> rank(self.info(m)) >= 2,
                carpet matches Some(c) ==> c < k && covers(self.info(c as int), x as int, y as int) && rank(self.info(c as int)) == 2,
                carpet matches Some(c) ==> forall|m: int| 0 <= m < c && #[trigger] covers(self.info(m), x as int, y as int) ==> rank(self.info(m)) < 2,
                carpet is None ==> forall|m: int| 0 <= m < k && #[trigger] covers(self.info(m), x as int, y as int) ==> rank(self.info(m)) < 2,
            decreases self.objects@.len() - k,
        {
            let g = &self.objects[k].info;
            let inside = (g.pos_x as i64) <= (x as i64) && (x as i64) < (g.pos_x as i64) + (g.width as i64)
                && (g.pos_y as i64) <= (y as i64) && (y as i64) < (g.pos_y as i64) + (g.height as i64);
            if inside {
                if !g.is_carpet && !g.is_light {
                    proof {
                        assert(self.has_id(k as int, g.group_id));
                        assert(covers(self.info(k as int), x as int, y as int));
                        assert(self.first_pick(k as int, x as int, y as int));
                    }
                    return Some(g.group_id);
                }
                if g.is_light {
                    if light.is_none() {
                        light = Some(k);
                    }
                } else if carpet.is_none() {
                    carpet = Some(k);
                }
            }
            k = k + 1;
        }
        match light {
            Some(l) => {
                proof {
                    assert(self.has_id(l as int, self.info(l as int).group_id));
                    assert(self.first_pick(l as int, x as int, y as int));
                }
                Some(self.objects[l].info.group_id)
            },
            None => match carpet {
                Some(c) => {
                    proof {
                        assert(self.has_id(c as int, self.info(c as int).group_id));
                        assert(self.first_pick(c as int, x as int, y as int));
                    }
                    Some(self.objects[c].info.group_id)
                },
                None => None,
            },
        }
    }

    /// Removes the object with group id `id`, if there is one.
    pub fn delete_group(&mut self, id: u32)
        requires
            old(self).wf(),
        ensures
            final(self).wf(),
            final(self).next_group_id == old(self).next_group_id,
            forall|k: int| old(self).has_id(k, id) ==> final(self).objects@ == old(self).objects@.remove(k),
            (forall|k: int| !old(self).has_id(k, id)) ==> final(self).objects@ == old(self).objects@,
            final(self).money == old(self).money,
            final(self).busy_cassas == old(self).busy_cassas,
            final(self).basement_placed == old(self).basement_placed,
            final(self).current_level == old(self).current_level,
            final(self).floor_positions == old(self).floor_positions,
            final(self).wall_positions == old(self).wall_positions,
            final(self).outdoor_positions == old(self).outdoor_positions,
            final(self).flower_positions == old(self).flower_positions,
            final(self).total_food == old(self).total_food,
            final(self).pending_food_adds == old(self).pending_food_adds,
            final(self).same_map(*old(self)),
    {
        let mut k: usize = 0;
        while k < self.objects.len()
            invariant
                *self == *old(self),
                self.wf(),
                k <= self.objects@.len(),
                forall|m: int| 0 <= m < k ==> !self.has_id(m, id),
            decreases self.objects@.len() - k,
        {
            if self.objects[k].info.group_id == id {
                assert(old(self).has_id(k as int, id));
                self.objects.remove(k);
                proof {
                    assert forall|a: int| 0 <= a < self.objects@.len() implies #[trigger] self.info(a).group_id
                        < self.next_group_id by {
                        let a2 = if a < k { a } else { a + 1 };
                        assert(self.info(a) == old(self).info(a2));
                    }
                    assert forall|a: int, b: int|
                        0 <= a < b < self.objects@.len() implies #[trigger] self.info(a).group_id != #[trigger] self.info(b).group_id by {
                        let a2 = if a < k { a } else { a + 1 };
                        let b2 = if b < k { b } else { b + 1 };
                        assert(self.info(a) == old(self).info(a2));
                        assert(self.info(b) == old(self).info(b2));
                    }
                    assert forall|m: int| old(self).has_id(m, id) implies m == k by {
                        if m != k {
                            if m < k {
                                assert(old(self).info(m).group_id != old(self).info(k as int).group_id);
                            } else {
                                assert(old(self).info(k as int).group_id != old(self).info(m).group_id);
                            }
                        }
                    }
                }
                return;
            }
            k = k + 1;
        }
    }
}

/// Shape of a wall cell from the floor around it (south, north, east,
/// west and the four diagonals): a straight wall `&` beside floor to the
/// south or north, corners `/` and `|` beside floor to the east or west,
/// end pieces `p` and `i` beside floor only diagonally to the south; no
/// wall at all without floor around it.
pub open spec fn wall_shape(
    s: bool,
    n: bool,
    e: bool,
    w: bool,
    se: bool,
    sw: bool,
    ne: bool,
    nw: bool,
) -> Option<char> {
    if s || n {
        Some('&')
    } else if e || ne {
        Some('/')
    } else if w || nw {
        Some('|')
    } else if se {
        Some('p')
    } else if sw {
        Some('i')
    } else {
        None
    }
}

/// `f` holds the cell at offset (`dx`, `dy`) from `n`.
pub open spec fn has_at(f: Set<Node>, n: Node, dx: int, dy: int) -> bool {
    f.contains(Node { x: (n.x + dx) as i32, y: (n.y + dy) as i32 })
}

/// Shape of the wall at cell `n` given the floor cells `f` (south is
/// `y + 1`).
pub open spec fn wall_shape_at(f: Set<Node>, n: Node) -> Option<char> {
    wall_shape(
        has_at(f, n, 0, 1),
        has_at(f, n, 0, -1),
        has_at(f, n, 1, 0),
        has_at(f, n, -1, 0),
        has_at(f, n, 1, 1),
        has_at(f, n, -1, 1),
        has_at(f, n, 1, -1),
        has_at(f, n, -1, -1),
    )
}

impl Shop {
    /// The wall token that cell (`wx`, `wy`) should show given the floor
    /// around it, or `None` where no floor touches it.
    pub fn recompute_wall_token(&self, wx: i32, wy: i32) -> (r: Option<&'static str>)
        requires
            crate::pathfinding::steppable(Node { x: wx, y: wy }),
        ensures
            match wall_shape_at(self.floor_positions@, Node { x: wx, y: wy }) {
                Some(c) => r matches Some(t) && t@ == seq![c],
                None => r is None,
            },
    {
        let f = &self.floor_positions;
        let s = f.contains(Node { x: wx, y: wy + 1 });
        let n = f.contains(Node { x: wx, y: wy - 1 });
        let e = f.contains(Node { x: wx + 1, y: wy });
        let w = f.contains(Node { x: wx - 1, y: wy });
        let se = f.contains(Node { x: wx + 1, y: wy + 1 });
        let sw = f.contains(Node { x: wx - 1, y: wy + 1 });
        let ne = f.contains(Node { x: wx + 1, y: wy - 1 });
        let nw = f.contains(Node { x: wx - 1, y: wy - 1 });
        if s || n {
            proof { reveal_strlit("&"); }
            Some("&")
        } else if e || ne {
            proof { reveal_strlit("/"); }
            Some("/")
        } else if w || nw {
            proof { reveal_strlit("|"); }
            Some("|")
        } else if se {
            proof { reveal_strlit("p"); }
            Some("p")
        } else if sw {
            proof { reveal_strlit("i"); }
            Some("i")
        } else {
            None
        }
    }
}

/// The numbers of the game's balance that placement and shoppers use.
pub struct Balance {
    /// Price overrides by object name.
    pub prices: Vec<(String, i32)>,
    pub max_food_box: i32,
    pub max_food_rack: i32,
    pub max_food_candies: i32,
    pub candies_start_food: i32,
    pub money_at_cassa: i32,
    pub money_at_candy: i32,
    /// Cell where shoppers appear and which they leave by.
    pub spawn_x: i32,
    pub spawn_y: i32,
    /// Fill levels at which a box looks half full and full.
    pub box_tex_threshold_1: i32,
    pub box_tex_threshold_2: i32,
}

/// The food store a newly placed object starts with: boxes and racks
/// empty, candy stands partly filled, other objects none.
pub open spec fn food_for(name: Seq<char>, b: Balance) -> Option<FoodStorage> {
    if name == "box"@ {
        Some(FoodStorage { food_count: 0, max_food: b.max_food_box })
    } else if name == "rack"@ {
        Some(FoodStorage { food_count: 0, max_food: b.max_food_rack })
    } else if name == "candies"@ {
        Some(FoodStorage { food_count: b.candies_start_food, max_food: b.max_food_candies })
    } else {
        None
    }
}

/// Fence pieces carry a fence component.
pub open spec fn is_fence(name: Seq<char>) -> bool {
    name == "fence"@ || name == "street_fence"@
}

/// An object whose single texture frame is stretched over a footprint of
/// several cells.
pub open spec fn spans(obj: Object) -> bool {
    obj.width * obj.height > 1 && obj.texture_count@[0] == 1 && obj.texture_count@[1] == 1
}

/// The names of the kinds of objects that have rules of their own are
/// distinct.
pub proof fn lemma_kind_names()
    ensures
        "box"@.len() == 3,
        "rack"@.len() == 4,
        "fence"@.len() == 5,
        "cassa"@.len() == 5,
        "fence"@ != "cassa"@,
        "candies"@.len() == 7,
        "basement"@.len() == 8,
        "street_fence"@.len() == 12,
{
    reveal_strlit("box");
    reveal_strlit("rack");
    reveal_strlit("fence");
    reveal_strlit("cassa");
    reveal_strlit("candies");
    reveal_strlit("basement");
    reveal_strlit("street_fence");
    assert("fence"@[0] != "cassa"@[0]);
}

impl Shop {
    /// Geometry of `obj` placed at (`gx`, `gy`) under the next group id.
    pub open spec fn new_info(self, obj: Object, gx: i32, gy: i32) -> GroupInfo {
        GroupInfo {
            group_id: self.next_group_id,
            width: obj.width,
            height: obj.height,
            pos_x: gx,
            pos_y: gy,
            is_carpet: listed(carpet_name_list(), obj.name@),
            is_light: listed(light_names(), obj.name@),
            spanning: spans(obj),
        }
    }

    /// The placement of `obj` at (`gx`, `gy`) is refused: cash desks, racks
    /// and the staircase are not allowed in the basement, there is only one
    /// staircase, the player cannot pay the price, or the cells do not
    /// take the object.
    pub open spec fn refuses(self, obj: Object, gx: i32, gy: i32, b: Balance) -> bool {
        let name = obj.name@;
        ||| self.current_level == -1 && (name == "cassa"@ || name == "rack"@ || name == "basement"@)
        ||| name == "basement"@ && self.basement_placed.0
        ||| self.money.0 < configured_price(b.prices@, name)
        ||| !self.placeable(
            gx as int,
            gy as int,
            obj.width as int,
            obj.height as int,
            listed(carpet_name_list(), name),
            listed(light_names(), name),
            listed(walldecor_names(), name),
            listed(outdoor_name_list(), name),
            listed(flower_name_list(), name),
        )
    }

    /// Everything but the objects, the id counter, the money and the
    /// staircase flag is as in `other`.
    pub open spec fn same_grounds(self, other: Shop) -> bool {
        &&& self.busy_cassas == other.busy_cassas
        &&& self.total_food == other.total_food
        &&& self.pending_food_adds@ == other.pending_food_adds@
        &&& self.current_level == other.current_level
        &&& self.floor_positions == other.floor_positions
        &&& self.wall_positions == other.wall_positions
        &&& self.outdoor_positions == other.outdoor_positions
        &&& self.flower_positions == other.flower_positions
        &&& self.same_map(other)
    }

    /// The map part of `self` is that of `other`.
    pub open spec fn same_map(self, other: Shop) -> bool {
        &&& self.floor_placed_positions == other.floor_placed_positions
        &&& self.floor_placeable_positions == other.floor_placeable_positions
        &&& self.map_grid == other.map_grid
        &&& self.original_tokens == other.original_tokens
    }

    /// Adds an object group with its corner at (`x`, `y`) under a fresh
    /// group id, which it returns.
    pub fn add_group_object(
        &mut self,
        x: i32,
        y: i32,
        width: i32,
        height: i32,
        texture_path: &str,
        tex_count: [i32; 2],
        is_carpet: bool,
        is_light: bool,
        name: &str,
    ) -> (id: u32)
        requires
            old(self).wf(),
            old(self).next_group_id < u32::MAX,
        ensures
            final(self).wf(),
            id == old(self).next_group_id,
            final(self).next_group_id == old(self).next_group_id + 1,
            final(self).objects@.len() == old(self).objects@.len() + 1,
            final(self).objects@.drop_last() == old(self).objects@,
            final(self).objects@.last().info == (GroupInfo {
                group_id: id,
                width,
                height,
                pos_x: x,
                pos_y: y,
                is_carpet,
                is_light,
                spanning: width * height > 1 && tex_count@[0] == 1 && tex_count@[1] == 1,
            }),
            final(self).objects@.last().tag.name@ == name@,
            final(self).objects@.last().texture@ == texture_path@,
            final(self).objects@.last().food is None,
            final(self).objects@.last().fence is None,
            final(self).money == old(self).money,
            final(self).basement_placed == old(self).basement_placed,
            final(self).same_grounds(*old(self)),
    {
        let id = self.next_group_id;
        self.next_group_id = id + 1;
        assert(i64::MIN <= width * height <= i64::MAX) by (nonlinear_arith)
            requires
                i32::MIN <= width <= i32::MAX,
                i32::MIN <= height <= i32::MAX,
        ;
        let spanning = (width as i64) * (height as i64) > 1 && tex_count[0] == 1 && tex_count[1] == 1;
        let info = GroupInfo {
            group_id: id,
            width,
            height,
            pos_x: x,
            pos_y: y,
            is_carpet,
            is_light,
            spanning,
        };
        let tag = ObjectTag { name: crate::text::string_of(&crate::text::chars_of(name)) };
        let texture = crate::text::string_of(&crate::text::chars_of(texture_path));
        self.objects.push(Placed { info, tag, texture, food: None, fence: None });
        proof {
            assert(self.objects@.drop_last() =~= old(self).objects@);
            assert forall|k: int, m: int|
                0 <= k < m < self.objects@.len() implies #[trigger] self.info(k).group_id != #[trigger] self.info(m).group_id by {
                if m < old(self).objects@.len() {
                    assert(self.info(k) == old(self).info(k));
                    assert(self.info(m) == old(self).info(m));
                } else {
                    assert(self.info(k) == old(self).info(k));
                }
            }
            assert forall|k: int| 0 <= k < self.objects@.len() implies #[trigger] self.info(k).group_id
                < self.next_group_id by {
                if k < old(self).objects@.len() {
                    assert(self.info(k) == old(self).info(k));
                }
            }
        }
        id
    }
}

impl Shop {
    /// `self` is `o` after placing `obj` at (`gx`, `gy`) under group id
    /// `id`: the price is paid, the object comes last with its name, the
    /// food store of its kind and, for fences, a fence component; placing
    /// the staircase marks it as placed; nothing else changes.
    pub open spec fn placed_from(self, o: Shop, obj: Object, gx: i32, gy: i32, b: Balance, id: u32) -> bool {
        &&& self.wf()
        &&& id == o.next_group_id
        &&& self.next_group_id == o.next_group_id + 1
        &&& self.money.0 == o.money.0 - configured_price(b.prices@, obj.name@)
        &&& self.objects@.len() == o.objects@.len() + 1
        &&& self.objects@.drop_last() == o.objects@
        &&& self.objects@.last().info == o.new_info(obj, gx, gy)
        &&& self.objects@.last().tag.name@ == obj.name@
        &&& self.objects@.last().texture@ == obj.path@
        &&& self.objects@.last().food == food_for(obj.name@, b)
        &&& (self.objects@.last().fence is Some <==> is_fence(obj.name@))
        &&& (self.objects@.last().fence matches Some(fc) ==> fc.name@ == obj.name@)
        &&& self.basement_placed.0 == (o.basement_placed.0 || obj.name@ == "basement"@)
        &&& self.same_grounds(o)
    }
}

/// Places the object of hotbar slot `act_slot` with its corner at
/// (`gx`, `gy`). When the placement is refused (see `Shop::refuses`) the
/// shop is left as it was and `None` comes back; otherwise the price is
/// paid, the object is added under a fresh group id, which is returned,
/// with its name, the food store of its kind and, for fences, a fence
/// component, and placing the staircase marks it as placed.
pub fn add(shop: &mut Shop, slots: &Vec<Slot>, act_slot: i32, gx: i32, gy: i32, balance: &Balance) -> (r: Option<u32>)
    requires
        old(shop).wf(),
        old(shop).next_group_id < u32::MAX,
        0 <= act_slot < slots@.len(),
        gx + slots@[act_slot as int].obj.width - 1 <= i32::MAX,
        gy + slots@[act_slot as int].obj.height - 1 <= i32::MAX,
        old(shop).money.0 - configured_price(balance.prices@, slots@[act_slot as int].obj.name@) <= i32::MAX,
    ensures
        r is None <==> old(shop).refuses(slots@[act_slot as int].obj, gx, gy, *balance),
        r is None ==> *final(shop) == *old(shop),
        r matches Some(id) ==> final(shop).placed_from(*old(shop), slots@[act_slot as int].obj, gx, gy, *balance, id),
{
    let obj = slots[act_slot as usize].obj;
    let name = obj.name;
    let is_carpet = is_carpet_name(name);
    let is_wall_decor = is_wall_decor_name(name);
    let is_outdoor = is_outdoor_name(name);
    let is_flower = is_flower_name(name);
    let is_light = is_light_name(name);
    let is_basement = str_eq(name, "basement");
    if shop.current_level == -1 {
        if str_eq(name, "cassa") || str_eq(name, "rack") || is_basement {
            return None;
        }
    }
    if is_basement && shop.basement_placed.0 {
        return None;
    }
    let price = object_price(name, &balance.prices);
    if shop.money.0 < price {
        return None;
    }
    if !shop.can_place_at(gx, gy, obj.width, obj.height, is_carpet, is_light, is_wall_decor, is_outdoor, is_flower) {
        return None;
    }
    let ghost before = *shop;
    let paid = shop.money.0 - price;
    shop.money = Money(paid);
    proof {
        before.lemma_wf_same_objects(*shop);
    }
    let id = shop.add_group_object(gx, gy, obj.width, obj.height, obj.path, obj.texture_count, is_carpet, is_light, name);
    let last = shop.objects.len() - 1;
    let mut placed = shop.objects.remove(last);
    if is_basement {
        shop.basement_placed = BasementPlaced(true);
    } else if str_eq(name, "box") {
        placed.food = Some(FoodStorage { food_count: 0, max_food: balance.max_food_box });
    } else if str_eq(name, "rack") {
        placed.food = Some(FoodStorage { food_count: 0, max_food: balance.max_food_rack });
    } else if str_eq(name, "candies") {
        placed.food = Some(FoodStorage { food_count: balance.candies_start_food, max_food: balance.max_food_candies });
    } else if str_eq(name, "fence") || str_eq(name, "street_fence") {
        placed.fence = Some(FenceComponent { name: crate::text::string_of(&crate::text::chars_of(name)) });
    }
    shop.objects.push(placed);
    proof {
        lemma_kind_names();
        assert(shop.objects@.drop_last() =~= old(shop).objects@);
        assert forall|k: int| 0 <= k < shop.objects@.len() implies #[trigger] shop.info(k).group_id
            < shop.next_group_id by {
            if k < old(shop).objects@.len() {
                assert(shop.info(k) == old(shop).info(k));
            }
        }
        assert forall|k: int, m: int|
            0 <= k < m < shop.objects@.len() implies #[trigger] shop.info(k).group_id != #[trigger] shop.info(m).group_id by {
            assert(shop.info(k) == old(shop).info(k));
            if m < old(shop).objects@.len() {
                assert(shop.info(m) == old(shop).info(m));
            }
        }
    }
    Some(id)
}

/// The object is called `name`.
pub open spec fn named(p: Placed, name: Seq<char>) -> bool {
    p.tag.name@ == name
}

/// The object holds food.
pub open spec fn stocked(p: Placed) -> bool {
    p.food matches Some(f) && f.food_count > 0
}

/// A cash desk stands at `at`.
pub open spec fn cassa_on(p: Placed, at: Node) -> bool {
    named(p, "cassa"@) && anchor(p.info) == at
}

/// A rack with food stands at `at` or at the cell below it (a shopper
/// reaches a rack from the cell in front of it).
pub open spec fn rack_for(p: Placed, at: Node) -> bool {
    &&& named(p, "rack"@)
    &&& anchor(p.info).x == at.x
    &&& (anchor(p.info).y == at.y || anchor(p.info).y == at.y - 1)
    &&& stocked(p)
}

/// A candy stand with candies stands at `at`.
pub open spec fn candy_on(p: Placed, at: Node) -> bool {
    named(p, "candies"@) && anchor(p.info) == at && stocked(p)
}

/// `p` with one unit of food less.
pub open spec fn one_taken(p: Placed, q: Placed) -> bool {
    &&& q.info == p.info
    &&& q.tag == p.tag
    &&& q.texture == p.texture
    &&& q.fence == p.fence
    &&& p.food matches Some(f) && q.food == Some(FoodStorage { food_count: (f.food_count - 1) as i32, max_food: f.max_food })
}

impl Shop {
    /// Some cash desk stands at `at`.
    pub open spec fn cassa_at(self, at: Node) -> bool {
        exists|k: int| 0 <= k < self.objects@.len() && #[trigger] cassa_on(self.objects@[k], at)
    }

    /// Some rack with food serves cell `at`.
    pub open spec fn rack_ready(self, at: Node) -> bool {
        exists|k: int| 0 <= k < self.objects@.len() && #[trigger] rack_for(self.objects@[k], at)
    }

    /// Some candy stand with candies stands at `at`.
    pub open spec fn candy_ready(self, at: Node) -> bool {
        exists|k: int| 0 <= k < self.objects@.len() && #[trigger] candy_on(self.objects@[k], at)
    }

    /// `k` is the first object that is a cash desk.
    pub open spec fn first_cassa_index(self, k: int) -> bool {
        &&& 0 <= k < self.objects@.len()
        &&& named(self.objects@[k], "cassa"@)
        &&& forall|m: int| 0 <= m < k ==> !#[trigger] named(self.objects@[m], "cassa"@)
    }

    /// Cell of the first cash desk of the shop, if there is one.
    pub open spec fn first_cassa(self) -> Option<Node> {
        if exists|k: int| self.first_cassa_index(k) {
            Some(anchor(self.objects@[choose|k: int| self.first_cassa_index(k)].info))
        } else {
            None
        }
    }

    /// The objects of `self` are those of `o` with one unit of food taken
    /// from the object at index `k`.
    pub open spec fn took_objects(self, o: Shop, k: int) -> bool {
        &&& 0 <= k < o.objects@.len()
        &&& self.objects@.len() == o.objects@.len()
        &&& one_taken(o.objects@[k], self.objects@[k])
        &&& forall|m: int| 0 <= m < o.objects@.len() && m != k ==> self.objects@[m] == o.objects@[m]
    }

    /// `self` is `o` with one unit of food taken from the object at index
    /// `k`.
    pub open spec fn took_from(self, o: Shop, k: int) -> bool {
        &&& self.took_objects(o, k)
        &&& self.next_group_id == o.next_group_id
        &&& self.money == o.money
        &&& self.basement_placed == o.basement_placed
        &&& self.same_grounds(o)
    }
}

proof fn lemma_first_cassa_unique(shop: Shop, k: int, m: int)
    requires
        shop.first_cassa_index(k),
        shop.first_cassa_index(m),
    ensures
        k == m,
{
    if k < m {
        assert(!named(shop.objects@[k], "cassa"@));
    } else if m < k {
        assert(!named(shop.objects@[m], "cassa"@));
    }
}

/// Shops with the same objects answer the shoppers' questions alike.
pub proof fn lemma_same_objects_queries(a: Shop, b: Shop)
    requires
        a.objects@ == b.objects@,
    ensures
        a.first_cassa() == b.first_cassa(),
        forall|at: Node| #[trigger] a.cassa_at(at) == b.cassa_at(at),
        forall|at: Node| #[trigger] a.rack_ready(at) == b.rack_ready(at),
        forall|at: Node| #[trigger] a.candy_ready(at) == b.candy_ready(at),
{
    assert forall|k: int| #[trigger] a.first_cassa_index(k) == b.first_cassa_index(k) by {}
    if exists|k: int| a.first_cassa_index(k) {
        let ka = choose|k: int| a.first_cassa_index(k);
        assert(b.first_cassa_index(ka));
        let kb = choose|k: int| b.first_cassa_index(k);
        assert(b.first_cassa_index(kb));
        lemma_first_cassa_unique(b, ka, kb);
        assert(a.first_cassa() == Some(anchor(a.objects@[ka].info)));
        assert(b.first_cassa() == Some(anchor(b.objects@[kb].info)));
    } else {
        assert forall|k: int| !b.first_cassa_index(k) by {
            assert(a.first_cassa_index(k) == b.first_cassa_index(k));
        }
    }
}

impl Shop {
    /// Whether a cash desk stands at `at`.
    pub fn cassa_exists(&self, at: Node) -> (b: bool)
        ensures
            b == self.cassa_at(at),
    {
        let mut k: usize = 0;
        while k < self.objects.len()
            invariant
                k <= self.objects@.len(),
                forall|m: int| 0 <= m < k ==> !#[trigger] cassa_on(self.objects@[m], at),
            decreases self.objects@.len() - k,
        {
            let p = &self.objects[k];
            if str_eq(p.tag.name.as_str(), "cassa") {
                let a = anchor_cell(&p.info);
                if a.x == at.x && a.y == at.y {
                    assert(cassa_on(self.objects@[k as int], at));
                    return true;
                }
            }
            k = k + 1;
        }
        false
    }

    /// Cell of the first cash desk, if the shop has one.
    pub fn find_any_cassa(&self) -> (r: Option<Node>)
        ensures
            r == self.first_cassa(),
    {
        let mut k: usize = 0;
        while k < self.objects.len()
            invariant
                k <= self.objects@.len(),
                forall|m: int| 0 <= m < k ==> !#[trigger] named(self.objects@[m], "cassa"@),
            decreases self.objects@.len() - k,
        {
            let p = &self.objects[k];
            if str_eq(p.tag.name.as_str(), "cassa") {
                proof {
                    assert(self.first_cassa_index(k as int));
                    lemma_first_cassa_unique(*self, k as int, choose|j: int| self.first_cassa_index(j));
                }
                return Some(anchor_cell(&p.info));
            }
            k = k + 1;
        }
        None
    }

    /// Whether a rack with food serves cell `at`.
    pub fn rack_exists(&self, at: Node) -> (b: bool)
        ensures
            b == self.rack_ready(at),
    {
        let mut k: usize = 0;
        while k < self.objects.len()
            invariant
                k <= self.objects@.len(),
                forall|m: int| 0 <= m < k ==> !#[trigger] rack_for(self.objects@[m], at),
            decreases self.objects@.len() - k,
        {
            if self.is_rack_for(k, at) {
                return true;
            }
            k = k + 1;
        }
        false
    }

    fn is_rack_for(&self, k: usize, at: Node) -> (b: bool)
        requires
            k < self.objects@.len(),
        ensures
            b == rack_for(self.objects@[k as int], at),
    {
        let p = &self.objects[k];
        if !str_eq(p.tag.name.as_str(), "rack") {
            return false;
        }
        let a = anchor_cell(&p.info);
        let stocked = match p.food {
            Some(f) => f.food_count > 0,
            None => false,
        };
        a.x == at.x && ((a.y as i64) == (at.y as i64) || (a.y as i64) == (at.y as i64) - 1) && stocked
    }

    fn is_candy_on(&self, k: usize, at: Node) -> (b: bool)
        requires
            k < self.objects@.len(),
        ensures
            b == candy_on(self.objects@[k as int], at),
    {
        let p = &self.objects[k];
        if !str_eq(p.tag.name.as_str(), "candies") {
            return false;
        }
        let a = anchor_cell(&p.info);
        let stocked = match p.food {
            Some(f) => f.food_count > 0,
            None => false,
        };
        a.x == at.x && a.y == at.y && stocked
    }

    /// Whether a candy stand with candies stands at `at`.
    pub fn candy_exists(&self, at: Node) -> (b: bool)
        ensures
            b == self.candy_ready(at),
    {
        let mut k: usize = 0;
        while k < self.objects.len()
            invariant
                k <= self.objects@.len(),
                forall|m: int| 0 <= m < k ==> !#[trigger] candy_on(self.objects@[m], at),
            decreases self.objects@.len() - k,
        {
            if self.is_candy_on(k, at) {
                return true;
            }
            k = k + 1;
        }
        false
    }

    /// Takes one unit of food from the object at index `k`.
    fn take_one(&mut self, k: usize)
        requires
            k < old(self).objects@.len(),
            old(self).objects@[k as int].food matches Some(f) && f.food_count > 0,
        ensures
            final(self).took_from(*old(self), k as int),
    {
        let mut p = self.objects.remove(k);
        let f = p.food.unwrap();
        p.food = Some(FoodStorage { food_count: f.food_count - 1, max_food: f.max_food });
        self.objects.insert(k, p);
    }

    /// Takes one unit of food from the first rack with food that serves
    /// cell `at`; reports whether there was one. Without one the shop is
    /// unchanged.
    pub fn take_food(&mut self, at: Node) -> (b: bool)
        ensures
            b == old(self).rack_ready(at),
            b ==> exists|k: int|
                #![trigger old(self).objects@[k]]
                rack_for(old(self).objects@[k], at) && (forall|m: int| 0 <= m < k ==> !rack_for(#[trigger] old(self).objects@[m], at))
                    && final(self).took_from(*old(self), k),
            !b ==> *final(self) == *old(self),
    {
        let mut k: usize = 0;
        while k < self.objects.len()
            invariant
                *self == *old(self),
                k <= self.objects@.len(),
                forall|m: int| 0 <= m < k ==> !#[trigger] rack_for(self.objects@[m], at),
            decreases self.objects@.len() - k,
        {
            if self.is_rack_for(k, at) {
                self.take_one(k);
                return true;
            }
            k = k + 1;
        }
        false
    }

    /// Takes one candy from the first stocked candy stand at `at`; reports
    /// whether there was one. Without one the shop is unchanged.
    pub fn take_candy(&mut self, at: Node) -> (b: bool)
        ensures
            b == old(self).candy_ready(at),
            b ==> exists|k: int|
                #![trigger old(self).objects@[k]]
                candy_on(old(self).objects@[k], at) && (forall|m: int| 0 <= m < k ==> !candy_on(#[trigger] old(self).objects@[m], at))
                    && final(self).took_from(*old(self), k),
            !b ==> *final(self) == *old(self),
    {
        let mut k: usize = 0;
        while k < self.objects.len()
            invariant
                *self == *old(self),
                k <= self.objects@.len(),
                forall|m: int| 0 <= m < k ==> !#[trigger] candy_on(self.objects@[m], at),
            decreases self.objects@.len() - k,
        {
            if self.is_candy_on(k, at) {
                self.take_one(k);
                return true;
            }
            k = k + 1;
        }
        false
    }
}

/// The texture that shows how full a box or a rack is: a box is empty,
/// half full or full by the two thresholds, a rack empty or stocked.
/// Other objects keep their texture.
pub open spec fn fill_texture(name: Seq<char>, f: FoodStorage, b: Balance) -> Option<Seq<char>> {
    if name == "box"@ {
        if f.food_count < b.box_tex_threshold_1 {
            Some("tex/decor/regular/box/box_0.png"@)
        } else if f.food_count < b.box_tex_threshold_2 {
            Some("tex/decor/regular/box/box_1.png"@)
        } else {
            Some("tex/decor/regular/box/box_2.png"@)
        }
    } else if name == "rack"@ {
        if f.food_count == 0 {
            Some("tex/decor/regular/rack/rack_0.png"@)
        } else {
            Some("tex/decor/regular/rack/rack_1.png"@)
        }
    } else {
        None
    }
}

/// The texture that shows how full an object is (see `fill_texture`).
pub fn food_texture(name: &str, f: FoodStorage, b: &Balance) -> (r: Option<&'static str>)
    ensures
        match fill_texture(name@, f, *b) {
            Some(t) => r matches Some(x) && x@ == t,
            None => r is None,
        },
{
    if str_eq(name, "box") {
        if f.food_count < b.box_tex_threshold_1 {
            Some("tex/decor/regular/box/box_0.png")
        } else if f.food_count < b.box_tex_threshold_2 {
            Some("tex/decor/regular/box/box_1.png")
        } else {
            Some("tex/decor/regular/box/box_2.png")
        }
    } else if str_eq(name, "rack") {
        if f.food_count == 0 {
            Some("tex/decor/regular/rack/rack_0.png")
        } else {
            Some("tex/decor/regular/rack/rack_1.png")
        }
    } else {
        None
    }
}

/// The fill textures of the objects `objs` that hold food, in order, with
/// their group ids.
pub open spec fn fill_updates(objs: Seq<Placed>, b: Balance) -> Seq<(u32, Seq<char>)>
    decreases objs.len(),
{
    if objs.len() == 0 {
        Seq::empty()
    } else {
        let rest = fill_updates(objs.drop_last(), b);
        let p = objs.last();
        match p.food {
            Some(f) => match fill_texture(p.tag.name@, f, b) {
                Some(t) => rest.push((p.info.group_id, t)),
                None => rest,
            },
            None => rest,
        }
    }
}

impl Shop {
    /// The new textures of the boxes and racks by how full they are, as
    /// (group id, texture) pairs in the order of the objects.
    pub fn update_object_textures(&self, b: &Balance) -> (r: Vec<(u32, &'static str)>)
        ensures
            r@.len() == fill_updates(self.objects@, *b).len(),
            forall|i: int|
                0 <= i < r@.len() ==> (#[trigger] r@[i]).0 == fill_updates(self.objects@, *b)[i].0 && r@[i].1@
                    == fill_updates(self.objects@, *b)[i].1,
    {
        let mut r: Vec<(u32, &'static str)> = Vec::new();
        let mut k: usize = 0;
        while k < self.objects.len()
            invariant
                k <= self.objects@.len(),
                r@.len() == fill_updates(self.objects@.take(k as int), *b).len(),
                forall|i: int|
                    0 <= i < r@.len() ==> (#[trigger] r@[i]).0 == fill_updates(self.objects@.take(k as int), *b)[i].0
                        && r@[i].1@ == fill_updates(self.objects@.take(k as int), *b)[i].1,
            decreases self.objects@.len() - k,
        {
            let p = &self.objects[k];
            proof {
                assert(self.objects@.take(k + 1).drop_last() =~= self.objects@.take(k as int));
                assert(self.objects@.take(k + 1).last() == self.objects@[k as int]);
            }
            match p.food {
                Some(f) => match food_texture(p.tag.name.as_str(), f, b) {
                    Some(t) => {
                        r.push((p.info.group_id, t));
                    },
                    None => {},
                },
                None => {},
            }
            k = k + 1;
        }
        assert(self.objects@.take(k as int) =~= self.objects@);
        r
    }
}

/// What a click in look mode does at object `p` of group `id`: a box
/// sells all its food into the shop's stock; a rack that is not full
/// takes from the stock what it lacks, but no more than the stock holds
/// (the stock gives up that amount even where it is not positive, and
/// the rack changes only where it is). Returns the object's new food
/// store and the stock.
pub open spec fn serve_click(p: Placed, total: int) -> (Option<FoodStorage>, int) {
    match p.food {
        Some(f) => if named(p, "box"@) && f.food_count > 0 {
            (Some(FoodStorage { food_count: 0, max_food: f.max_food }), total + f.food_count)
        } else if named(p, "rack"@) && f.food_count < f.max_food {
            let want = f.max_food - f.food_count;
            let take = if want < total { want } else { total };
            if take > 0 {
                (Some(FoodStorage { food_count: (f.food_count + take) as i32, max_food: f.max_food }), total - take)
            } else {
                (p.food, total - take)
            }
        } else {
            (p.food, total)
        },
        None => (p.food, total),
    }
}

/// The signal of a click in look mode at object `p`: 2 for the staircase
/// (change level), 1 for an arcade machine (its texture names one), 0
/// otherwise.
pub open spec fn click_signal(p: Placed) -> i32 {
    if named(p, "basement"@) {
        2
    } else if crate::text::has_infix(p.texture@, "arcade_machine"@) {
        1
    } else {
        0
    }
}

impl Shop {
    /// The stock and food counts stay in range for every click.
    pub open spec fn click_fits(self) -> bool {
        forall|k: int|
            0 <= k < self.objects@.len() ==> match #[trigger] self.objects@[k].food {
                Some(f) => i32::MIN <= self.total_food.0 + f.food_count <= i32::MAX && i32::MIN <= f.max_food
                    - f.food_count <= i32::MAX,
                None => true,
            }
    }

    /// `self` is `o` after a click on the object at index `k`.
    pub open spec fn clicked(self, o: Shop, k: int) -> bool {
        let p = o.objects@[k];
        let (food, total) = serve_click(p, o.total_food.0 as int);
        &&& self.objects@.len() == o.objects@.len()
        &&& self.objects@[k].food == food
        &&& self.objects@[k].info == p.info
        &&& self.objects@[k].tag == p.tag
        &&& self.objects@[k].texture == p.texture
        &&& self.objects@[k].fence == p.fence
        &&& forall|m: int| 0 <= m < o.objects@.len() && m != k ==> self.objects@[m] == o.objects@[m]
        &&& self.total_food.0 == total
        &&& self.pending_food_adds@ == if named(p, "rack"@) && total < o.total_food.0 {
            o.pending_food_adds@.push(p.info.group_id)
        } else {
            o.pending_food_adds@
        }
        &&& self.next_group_id == o.next_group_id
        &&& self.money == o.money
        &&& self.basement_placed == o.basement_placed
        &&& self.busy_cassas == o.busy_cassas
        &&& self.current_level == o.current_level
        &&& self.floor_positions == o.floor_positions
        &&& self.wall_positions == o.wall_positions
        &&& self.outdoor_positions == o.outdoor_positions
        &&& self.flower_positions == o.flower_positions
        &&& self.same_map(o)
    }
}

/// A click in look mode at cell (`gx`, `gy`): the object picked there (as
/// `Shop::find_group_at_position` picks) is served (see `serve_click`)
/// and its signal returned (see `click_signal`); 0 and no change where
/// no object covers the cell.
pub fn try_interact(shop: &mut Shop, gx: i32, gy: i32) -> (r: i32)
    requires
        old(shop).wf(),
        old(shop).click_fits(),
    ensures
        (forall|k: int| 0 <= k < old(shop).objects@.len() ==> !#[trigger] covers(old(shop).info(k), gx as int, gy as int))
            ==> r == 0 && *final(shop) == *old(shop),
        (exists|k: int| 0 <= k < old(shop).objects@.len() && #[trigger] covers(old(shop).info(k), gx as int, gy as int))
            ==> exists|k: int|
            #![trigger old(shop).info(k)]
            old(shop).first_pick(k, gx as int, gy as int) && final(shop).clicked(*old(shop), k) && r == click_signal(
                old(shop).objects@[k],
            ),
{
    let gid = match shop.find_group_at_position(gx, gy) {
        Some(g) => g,
        None => {
            return 0;
        },
    };
    let ghost o = *shop;
    let mut k: usize = 0;
    while k < shop.objects.len() && shop.objects[k].info.group_id != gid
        invariant
            *shop == o,
            k <= o.objects@.len(),
            forall|m: int| 0 <= m < k ==> o.info(m).group_id != gid,
            exists|j: int| o.has_id(j, gid),
        decreases o.objects@.len() - k,
    {
        k = k + 1;
    }
    let ghost kk = k as int;
    proof {
        if k == o.objects@.len() {
            let j = choose|j: int| o.has_id(j, gid);
            assert(o.info(j).group_id != gid);
        }
        assert(o.info(kk).group_id == gid);
        let fp = choose|j: int| #![trigger o.info(j)] o.has_id(j, gid) && o.first_pick(j, gx as int, gy as int);
        assert forall|j: int| o.has_id(j, gid) implies j == kk by {
            if j != kk {
                if j < kk {
                    assert(o.info(j).group_id != o.info(kk).group_id);
                } else {
                    assert(o.info(kk).group_id != o.info(j).group_id);
                }
            }
        }
    }
    let mut p = shop.objects.remove(k);
    let is_box = str_eq(p.tag.name.as_str(), "box");
    let is_rack = str_eq(p.tag.name.as_str(), "rack");
    proof {
        lemma_kind_names();
    }
    match p.food {
        Some(f) => {
            if is_box {
                if f.food_count > 0 {
                    p.food = Some(FoodStorage { food_count: 0, max_food: f.max_food });
                    shop.total_food = TotalFood(shop.total_food.0 + f.food_count);
                }
            } else if is_rack {
                if f.food_count < f.max_food {
                    let want: i32 = f.max_food - f.food_count;
                    let take: i32 = if want < shop.total_food.0 { want } else { shop.total_food.0 };
                    shop.total_food = TotalFood(shop.total_food.0 - take);
                    if take > 0 {
                        p.food = Some(FoodStorage { food_count: f.food_count + take, max_food: f.max_food });
                        shop.pending_food_adds.push(gid);
                    }
                }
            }
        },
        None => {},
    }
    let signal = if str_eq(p.tag.name.as_str(), "basement") {
        2
    } else if crate::text::contains_str(p.texture.as_str(), "arcade_machine") {
        1
    } else {
        0
    };
    shop.objects.insert(k, p);
    proof {
        assert(o.has_id(kk, gid));
        assert(covers(o.info(kk), gx as int, gy as int));
        assert(shop.clicked(o, kk));
        assert(signal == click_signal(o.objects@[kk]));
    }
    signal
}

/// Cells of the fences among `objs`.
pub open spec fn fence_cells(objs: Seq<Placed>) -> Set<Node> {
    Set::new(|n: Node| exists|k: int| 0 <= k < objs.len() && (#[trigger] objs[k]).fence is Some && anchor(objs[k].info) == n)
}

/// `0` or `1` for a flag.
pub open spec fn bit(b: bool) -> Seq<char> {
    if b { seq!['1'] } else { seq!['0'] }
}

/// The texture file that shows a fence with neighbours above, below, to
/// the left and to the right as flagged: street fences and ordinary
/// fences have sets of their own.
pub open spec fn fence_path(name: Seq<char>, up: bool, down: bool, left: bool, right: bool) -> Seq<char> {
    let dir = if name == "street_fence"@ {
        "tex/decor/outdoor/street_fence/street_fence"@
    } else {
        "tex/decor/regular/fence/fence"@
    };
    dir + "_"@ + bit(up) + "_"@ + bit(down) + "_"@ + bit(left) + "_"@ + bit(right) + ".png"@
}

/// The texture to use where that file is missing.
pub open spec fn fence_fallback(name: Seq<char>) -> Seq<char> {
    if name == "street_fence"@ {
        "tex/decor/outdoor/street_fence/street_fence_0_0_0_0.png"@
    } else {
        "tex/decor/regular/fence/fence_0_0_0_0.png"@
    }
}

/// The texture choices of the fences among the first objects `objs` of
/// `all`, in order: group id, the file for its neighbours and the
/// fallback.
pub open spec fn fence_updates(all: Seq<Placed>, objs: Seq<Placed>) -> Seq<(u32, Seq<char>, Seq<char>)>
    decreases objs.len(),
{
    if objs.len() == 0 {
        Seq::empty()
    } else {
        let rest = fence_updates(all, objs.drop_last());
        let p = objs.last();
        match p.fence {
            Some(f) => {
                let a = anchor(p.info);
                let cells = fence_cells(all);
                rest.push(
                    (
                        p.info.group_id,
                        fence_path(
                            f.name@,
                            cells.contains(Node { x: a.x, y: (a.y + 1) as i32 }),
                            cells.contains(Node { x: a.x, y: (a.y - 1) as i32 }),
                            cells.contains(Node { x: (a.x - 1) as i32, y: a.y }),
                            cells.contains(Node { x: (a.x + 1) as i32, y: a.y }),
                        ),
                        fence_fallback(f.name@),
                    ),
                )
            },
            None => rest,
        }
    }
}

impl Shop {
    /// Every fence lies inside the coordinate range with a cell to spare
    /// on each side.
    pub open spec fn fences_inside(self) -> bool {
        forall|k: int|
            0 <= k < self.objects@.len() && (#[trigger] self.objects@[k]).fence is Some ==> crate::pathfinding::steppable(
                anchor(self.objects@[k].info),
            )
    }

    /// Whether a fence stands at `n`.
    fn fence_at(&self, n: Node) -> (b: bool)
        ensures
            b == fence_cells(self.objects@).contains(n),
    {
        let mut k: usize = 0;
        while k < self.objects.len()
            invariant
                k <= self.objects@.len(),
                forall|m: int| 0 <= m < k ==> !((#[trigger] self.objects@[m]).fence is Some && anchor(self.objects@[m].info) == n),
            decreases self.objects@.len() - k,
        {
            if self.objects[k].fence.is_some() {
                let a = anchor_cell(&self.objects[k].info);
                if a.x == n.x && a.y == n.y {
                    assert(self.objects@[k as int].fence is Some && anchor(self.objects@[k as int].info) == n);
                    return true;
                }
            }
            k = k + 1;
        }
        false
    }

    /// The texture choice of every fence by its neighbours (see
    /// `fence_updates`): the application uses the file where it exists and
    /// the fallback otherwise.
    pub fn update_fence_textures(&self) -> (r: Vec<(u32, String, &'static str)>)
        requires
            self.fences_inside(),
        ensures
            r@.len() == fence_updates(self.objects@, self.objects@).len(),
            forall|i: int|
                0 <= i < r@.len() ==> (#[trigger] r@[i]).0 == fence_updates(self.objects@, self.objects@)[i].0
                    && r@[i].1@ == fence_updates(self.objects@, self.objects@)[i].1 && r@[i].2@ == fence_updates(
                    self.objects@,
                    self.objects@,
                )[i].2,
    {
        let mut r: Vec<(u32, String, &'static str)> = Vec::new();
        let mut k: usize = 0;
        while k < self.objects.len()
            invariant
                k <= self.objects@.len(),
                self.fences_inside(),
                r@.len() == fence_updates(self.objects@, self.objects@.take(k as int)).len(),
                forall|i: int|
                    0 <= i < r@.len() ==> (#[trigger] r@[i]).0 == fence_updates(self.objects@, self.objects@.take(k as int))[i].0
                        && r@[i].1@ == fence_updates(self.objects@, self.objects@.take(k as int))[i].1 && r@[i].2@
                        == fence_updates(self.objects@, self.objects@.take(k as int))[i].2,
            decreases self.objects@.len() - k,
        {
            proof {
                assert(self.objects@.take(k + 1).drop_last() =~= self.objects@.take(k as int));
                assert(self.objects@.take(k + 1).last() == self.objects@[k as int]);
            }
            let p = &self.objects[k];
            match &p.fence {
                Some(f) => {
                    let a = anchor_cell(&p.info);
                    let up = self.fence_at(Node { x: a.x, y: a.y + 1 });
                    let down = self.fence_at(Node { x: a.x, y: a.y - 1 });
                    let left = self.fence_at(Node { x: a.x - 1, y: a.y });
                    let right = self.fence_at(Node { x: a.x + 1, y: a.y });
                    let street = str_eq(f.name.as_str(), "street_fence");
                    let mut path = String::new();
                    assert(path@ == Seq::<char>::empty());
                    let fallback = if street {
                        crate::text::append(&mut path, "tex/decor/outdoor/street_fence/street_fence");
                        "tex/decor/outdoor/street_fence/street_fence_0_0_0_0.png"
                    } else {
                        crate::text::append(&mut path, "tex/decor/regular/fence/fence");
                        "tex/decor/regular/fence/fence_0_0_0_0.png"
                    };
                    crate::text::append(&mut path, "_");
                    crate::text::append(&mut path, if up { "1" } else { "0" });
                    crate::text::append(&mut path, "_");
                    crate::text::append(&mut path, if down { "1" } else { "0" });
                    crate::text::append(&mut path, "_");
                    crate::text::append(&mut path, if left { "1" } else { "0" });
                    crate::text::append(&mut path, "_");
                    crate::text::append(&mut path, if right { "1" } else { "0" });
                    crate::text::append(&mut path, ".png");
                    proof {
                        reveal_strlit("1");
                        reveal_strlit("0");
                    }
                    r.push((p.info.group_id, path, fallback));
                },
                None => {},
            }
            k = k + 1;
        }
        assert(self.objects@.take(k as int) =~= self.objects@);
        r
    }
}

/// `q` is `p` after the regeneration tick: a box that is not full gains
/// `amount` food; everything else stays.
pub open spec fn regenerated(p: Placed, q: Placed, amount: int) -> bool {
    &&& q.info == p.info
    &&& q.tag == p.tag
    &&& q.texture == p.texture
    &&& q.fence == p.fence
    &&& q.food == match p.food {
        Some(f) => if named(p, "box"@) && f.food_count < f.max_food {
            Some(FoodStorage { food_count: (f.food_count + amount) as i32, max_food: f.max_food })
        } else {
            p.food
        },
        None => p.food,
    }
}

impl Shop {
    /// The regeneration tick cannot overflow a box's count.
    pub open spec fn regen_fits(self, amount: int) -> bool {
        forall|k: int|
            0 <= k < self.objects@.len() ==> match #[trigger] self.objects@[k].food {
                Some(f) => named(self.objects@[k], "box"@) && f.food_count < f.max_food ==> f.food_count + amount
                    <= i32::MAX && i32::MIN <= f.food_count + amount,
                None => true,
            }
    }

    /// The periodic food regeneration: every box that is not full gains
    /// `amount` food.
    pub fn regen_food(&mut self, amount: i32)
        requires
            old(self).regen_fits(amount as int),
        ensures
            final(self).objects@.len() == old(self).objects@.len(),
            forall|k: int|
                0 <= k < old(self).objects@.len() ==> regenerated(
                    old(self).objects@[k],
                    #[trigger] final(self).objects@[k],
                    amount as int,
                ),
            final(self).next_group_id == old(self).next_group_id,
            final(self).money == old(self).money,
            final(self).basement_placed == old(self).basement_placed,
            final(self).same_grounds(*old(self)),
    {
        let mut k: usize = 0;
        while k < self.objects.len()
            invariant
                k <= self.objects@.len(),
                self.objects@.len() == old(self).objects@.len(),
                old(self).regen_fits(amount as int),
                forall|m: int|
                    0 <= m < k ==> regenerated(old(self).objects@[m], #[trigger] self.objects@[m], amount as int),
                forall|m: int| k <= m < self.objects@.len() ==> #[trigger] self.objects@[m] == old(self).objects@[m],
                self.next_group_id == old(self).next_group_id,
                self.money == old(self).money,
                self.basement_placed == old(self).basement_placed,
                self.same_grounds(*old(self)),
            decreases self.objects@.len() - k,
        {
            let mut p = self.objects.remove(k);
            let is_box = str_eq(p.tag.name.as_str(), "box");
            match p.food {
                Some(f) => {
                    if is_box && f.food_count < f.max_food {
                        p.food = Some(FoodStorage { food_count: f.food_count + amount, max_food: f.max_food });
                    }
                },
                None => {},
            }
            self.objects.insert(k, p);
            k = k + 1;
        }
    }

    /// What the cursor shows of the object picked at cell (`x`, `y`): its
    /// food count, capacity and name, for objects that hold food.
    pub fn hover_info(&self, x: i32, y: i32) -> (r: Option<(i32, i32, String)>)
        requires
            self.wf(),
        ensures
            r matches Some((count, max, name)) ==> exists|k: int|
                #![trigger self.objects@[k]]
                self.first_pick(k, x as int, y as int) && self.objects@[k].food == Some(
                    FoodStorage { food_count: count, max_food: max },
                ) && name@ == self.objects@[k].tag.name@,
            r is None ==> (forall|k: int| 0 <= k < self.objects@.len() ==> !#[trigger] covers(self.info(k), x as int, y as int))
                || exists|k: int|
                #![trigger self.objects@[k]]
                self.first_pick(k, x as int, y as int) && self.objects@[k].food is None,
    {
        let gid = match self.find_group_at_position(x, y) {
            Some(g) => g,
            None => {
                return None;
            },
        };
        let mut k: usize = 0;
        while k < self.objects.len() && self.objects[k].info.group_id != gid
            invariant
                k <= self.objects@.len(),
                forall|m: int| 0 <= m < k ==> self.info(m).group_id != gid,
                exists|j: int| self.has_id(j, gid),
            decreases self.objects@.len() - k,
        {
            k = k + 1;
        }
        proof {
            if k == self.objects@.len() {
                let j = choose|j: int| self.has_id(j, gid);
                assert(self.info(j).group_id != gid);
            }
            let fp = choose|j: int| #![trigger self.info(j)] self.has_id(j, gid) && self.first_pick(j, x as int, y as int);
            assert forall|j: int| self.has_id(j, gid) implies j == k by {
                if j != k {
                    if j < k {
                        assert(self.info(j).group_id != self.info(k as int).group_id);
                    } else {
                        assert(self.info(k as int).group_id != self.info(j).group_id);
                    }
                }
            }
        }
        match self.objects[k].food {
            Some(f) => Some((f.food_count, f.max_food, crate::text::string_of(&crate::text::chars_of(self.objects[k].tag.name.as_str())))),
            None => None,
        }
    }
}

/// The next building mode: look (0), build (1), remove (2), round again.
pub fn cycle_mode(mode: i32) -> (r: i32)
    requires
        mode < i32::MAX,
    ensures
        r == if mode == 2 { 0 } else { mode + 1 },
{
    if mode == 2 { 0 } else { mode + 1 }
}

/// Remainder of `a` by a positive `b` with the sign of `a`, as Rust's `%`
/// computes it.
pub open spec fn rem_trunc(a: int, b: int) -> int {
    if a >= 0 { a % b } else { -((-a) % b) }
}

/// Frame of the atlas shown on cell (`i`, `j`) of an object's footprint:
/// the base frame moved by the cell's offset, wrapping round the atlas.
pub open spec fn cell_frame(base: [i32; 2], count: [i32; 2], i: int, j: int) -> (int, int) {
    (rem_trunc(base@[0] + i, count@[0] as int), rem_trunc(base@[1] + j, count@[1] as int))
}

/// The sprites of an object that is not drawn stretched: for each cell
/// (`i`, `j`) of its `width` × `height` footprint, column by column, the
/// offsets and the atlas frame it shows.
pub fn group_sprite_frames(width: i32, height: i32, base: [i32; 2], count: [i32; 2]) -> (r: Vec<(i32, i32, [i32; 2])>)
    requires
        count@[0] > 0,
        count@[1] > 0,
        base@[0] + width - 1 <= i32::MAX,
        base@[1] + height - 1 <= i32::MAX,
    ensures
        width <= 0 || height <= 0 ==> r@.len() == 0,
        width > 0 && height > 0 ==> r@.len() == width * height,
        forall|i: int, j: int|
            0 <= i < width && 0 <= j < height ==> {
                let e = #[trigger] r@[i * height + j];
                &&& e.0 == i
                &&& e.1 == j
                &&& e.2@[0] == cell_frame(base, count, i, j).0
                &&& e.2@[1] == cell_frame(base, count, i, j).1
            },
{
    let mut r: Vec<(i32, i32, [i32; 2])> = Vec::new();
    if width <= 0 || height <= 0 {
        return r;
    }
    let mut i: i32 = 0;
    while i < width
        invariant
            0 <= i <= width,
            height > 0,
            count@[0] > 0,
            count@[1] > 0,
            base@[0] + width - 1 <= i32::MAX,
            base@[1] + height - 1 <= i32::MAX,
            r@.len() == i * height,
            forall|a: int, b: int|
                0 <= a < i && 0 <= b < height ==> {
                    let e = #[trigger] r@[a * height + b];
                    &&& e.0 == a
                    &&& e.1 == b
                    &&& e.2@[0] == cell_frame(base, count, a, b).0
                    &&& e.2@[1] == cell_frame(base, count, a, b).1
                },
        decreases width - i,
    {
        let mut j: i32 = 0;
        while j < height
            invariant
                0 <= i < width,
                0 <= j <= height,
                count@[0] > 0,
                count@[1] > 0,
                base@[0] + width - 1 <= i32::MAX,
                base@[1] + height - 1 <= i32::MAX,
                r@.len() == i * height + j,
                forall|a: int, b: int|
                    0 <= a < i && 0 <= b < height ==> {
                        let e = #[trigger] r@[a * height + b];
                        &&& e.0 == a
                        &&& e.1 == b
                        &&& e.2@[0] == cell_frame(base, count, a, b).0
                        &&& e.2@[1] == cell_frame(base, count, a, b).1
                    },
                forall|b: int|
                    0 <= b < j ==> {
                        let e = #[trigger] r@[i * height + b];
                        &&& e.0 == i
                        &&& e.1 == b
                        &&& e.2@[0] == cell_frame(base, count, i as int, b).0
                        &&& e.2@[1] == cell_frame(base, count, i as int, b).1
                    },
            decreases height - j,
        {
            let a: i32 = base[0] + i;
            let b: i32 = base[1] + j;
            let fx: i32 = if a >= 0 { a % count[0] } else { -((-(a as i64)) % (count[0] as i64)) as i32 };
            let fy: i32 = if b >= 0 { b % count[1] } else { -((-(b as i64)) % (count[1] as i64)) as i32 };
            let ghost before = r@;
            r.push((i, j, [fx, fy]));
            proof {
                assert(r@[i * height + j] == (i, j, [fx, fy]));
                assert([fx, fy]@[0] == fx && [fx, fy]@[1] == fy);
                assert forall|c: int, d: int|
                    0 <= c < i && 0 <= d < height implies #[trigger] r@[c * height + d] == before[c * height + d] by {
                    assert(c * height + d < i * height) by (nonlinear_arith)
                        requires
                            0 <= c < i,
                            0 <= d < height,
                    ;
                }
            }
            j = j + 1;
        }
        proof {
            assert((i + 1) * height == i * height + height) by (nonlinear_arith);
        }
        i = i + 1;
    }
    r
}

impl Shop {
    /// Whether `obj` may stand with its corner at (`x`, `y`), its kind read
    /// from its name: what the cursor shows before a placement.
    pub fn fits(&self, obj: &Object, x: i32, y: i32) -> (b: bool)
        requires
            x + obj.width - 1 <= i32::MAX,
            y + obj.height - 1 <= i32::MAX,
        ensures
            b == self.placeable(
                x as int,
                y as int,
                obj.width as int,
                obj.height as int,
                listed(carpet_name_list(), obj.name@),
                listed(light_names(), obj.name@),
                listed(walldecor_names(), obj.name@),
                listed(outdoor_name_list(), obj.name@),
                listed(flower_name_list(), obj.name@),
            ),
    {
        self.can_place_at(
            x,
            y,
            obj.width,
            obj.height,
            is_carpet_name(obj.name),
            is_light_name(obj.name),
            is_wall_decor_name(obj.name),
            is_outdoor_name(obj.name),
            is_flower_name(obj.name),
        )
    }
}

/// Adding a group and deleting it again by the id it got leaves the
/// objects as they were: the group's parts all go with it.
pub proof fn law_add_then_delete(s0: Shop, s1: Shop, s2: Shop, id: u32)
    requires
        s0.wf(),
        id == s0.next_group_id,
        s1.objects@.len() == s0.objects@.len() + 1,
        s1.objects@.drop_last() == s0.objects@,
        s1.objects@.last().info.group_id == id,
        forall|k: int| s1.has_id(k, id) ==> s2.objects@ == s1.objects@.remove(k),
    ensures
        s2.objects@ == s0.objects@,
{
    let n = s0.objects@.len() as int;
    assert(s1.has_id(n, id));
    assert(s1.objects@.remove(n) =~= s1.objects@.drop_last());
}

/// Walls follow the floor: given what `Shop::recompute_wall_token`
/// ensures of its answer `r` for cell `n` with floor cells `f`, a wall
/// with floor directly above or below it is a straight wall `&`, and the
/// answer is `None` exactly when none of the eight cells around it is
/// floor.
pub proof fn law_wall_follows_floor(f: Set<Node>, n: Node, r: Option<&'static str>)
    requires
        crate::pathfinding::steppable(n),
        match wall_shape_at(f, n) {
            Some(c) => r matches Some(t) && t@ == seq![c],
            None => r is None,
        },
    ensures
        f.contains(Node { x: n.x, y: (n.y - 1) as i32 }) || f.contains(Node { x: n.x, y: (n.y + 1) as i32 }) ==> (
        r is Some && r->0@ == "&"@),
        r is None <==> forall|dx: int, dy: int|
            -1 <= dx <= 1 && -1 <= dy <= 1 && !(dx == 0 && dy == 0) ==> !#[trigger] has_at(f, n, dx, dy),
{
    reveal_strlit("&");
    if r is None {
        assert forall|dx: int, dy: int| -1 <= dx <= 1 && -1 <= dy <= 1 && !(dx == 0 && dy == 0) implies !#[trigger] has_at(
            f,
            n,
            dx,
            dy,
        ) by {
            if dx == 0 && dy == 1 {
            } else if dx == 0 && dy == -1 {
            } else if dx == 1 && dy == 0 {
            } else if dx == -1 && dy == 0 {
            } else if dx == 1 && dy == 1 {
            } else if dx == -1 && dy == 1 {
            } else if dx == 1 && dy == -1 {
            } else {
            }
        }
    } else {
        if forall|dx: int, dy: int|
            -1 <= dx <= 1 && -1 <= dy <= 1 && !(dx == 0 && dy == 0) ==> !#[trigger] has_at(f, n, dx, dy) {
            assert(!has_at(f, n, 0, 1));
            assert(!has_at(f, n, 0, -1));
            assert(!has_at(f, n, 1, 0));
            assert(!has_at(f, n, -1, 0));
            assert(!has_at(f, n, 1, 1));
            assert(!has_at(f, n, -1, 1));
            assert(!has_at(f, n, 1, -1));
            assert(!has_at(f, n, -1, -1));
        }
    }
}

} // verus!
