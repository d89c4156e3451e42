//! Snapshots of a level's objects: what is kept of each object when the
//! player leaves a level or saves the game, and how the objects are built
//! again from it.

use vstd::prelude::*;
use crate::catalog::{make_slot, object_named, is_carpet_name, is_light_name, listed, carpet_name_list, light_names};
use crate::shop::{Shop, Placed, GroupInfo, FoodStorage, FenceComponent, BasementPlaced, BusyCassas, is_fence, spans};
use crate::text::{str_eq, string_of, chars_of};
use crate::pathfinding::Node;
use crate::cells::{CellSet, TokenMap};
use crate::grid::{grid_view, in_grid, row_of, col_of, set_token, bottom_wall, lemma_grid_view_len, wall_word, floor_word, grass_word};
use crate::map::{before, cell_at};

verus! {

/// What is kept of a placed object.
#[derive(Debug)]
pub struct SavedObject {
    pub slot_name: String,
    pub x: i32,
    pub y: i32,
    pub food_count: i32,
    pub max_food: i32,
    pub is_carpet: bool,
}

/// The snapshot of object `p`: its name, corner, food store (0 and 0
/// without one) and layer.
pub open spec fn saved_of(p: Placed, s: SavedObject) -> bool {
    &&& s.slot_name@ == p.tag.name@
    &&& s.x == p.info.pos_x
    &&& s.y == p.info.pos_y
    &&& s.food_count == match p.food {
        Some(f) => f.food_count,
        None => 0,
    }
    &&& s.max_food == match p.food {
        Some(f) => f.max_food,
        None => 0,
    }
    &&& s.is_carpet == p.info.is_carpet
}

/// Objects that keep food: racks, boxes and candy stands.
pub open spec fn keeps_food(name: Seq<char>) -> bool {
    name == "rack"@ || name == "box"@ || name == "candies"@
}

/// The object rebuilt from snapshot `s` under group id `id`: the
/// catalogue object of its name gives the footprint and texture; carpets
/// and lights by name; food restored for racks, boxes and candy stands; a
/// fence component for fences.
pub open spec fn restored_from(s: SavedObject, id: u32, p: Placed) -> bool {
    let obj = object_named(s.slot_name@);
    &&& p.info == GroupInfo {
        group_id: id,
        width: obj.width,
        height: obj.height,
        pos_x: s.x,
        pos_y: s.y,
        is_carpet: listed(carpet_name_list(), s.slot_name@),
        is_light: listed(light_names(), s.slot_name@),
        spanning: spans(obj),
    }
    &&& p.tag.name@ == s.slot_name@
    &&& p.texture@ == obj.path@
    &&& p.food == if keeps_food(s.slot_name@) {
        Some(FoodStorage { food_count: s.food_count, max_food: s.max_food })
    } else {
        None
    }
    &&& (p.fence is Some <==> is_fence(s.slot_name@))
    &&& (p.fence matches Some(fc) ==> fc.name@ == s.slot_name@)
}

impl Shop {
    /// The snapshot of every object, in order.
    pub fn save_objects(&self) -> (r: Vec<SavedObject>)
        ensures
            r@.len() == self.objects@.len(),
            forall|k: int| 0 <= k < r@.len() ==> saved_of(self.objects@[k], #[trigger] r@[k]),
    {
        let mut r: Vec<SavedObject> = Vec::new();
        let mut k: usize = 0;
        while k < self.objects.len()
            invariant
                k <= self.objects@.len(),
                r@.len() == k,
                forall|m: int| 0 <= m < k ==> saved_of(self.objects@[m], #[trigger] r@[m]),
            decreases self.objects@.len() - k,
        {
            let p = &self.objects[k];
            let (count, max) = match p.food {
                Some(f) => (f.food_count, f.max_food),
                None => (0, 0),
            };
            r.push(SavedObject {
                slot_name: string_of(&chars_of(p.tag.name.as_str())),
                x: p.info.pos_x,
                y: p.info.pos_y,
                food_count: count,
                max_food: max,
                is_carpet: p.info.is_carpet,
            });
            k = k + 1;
        }
        r
    }

    /// Rebuilds the objects of `saved` after those of the shop, under
    /// fresh group ids (see `restored_from`); a staircase among them marks
    /// the staircase as placed.
    pub fn restore_objects(&mut self, saved: &Vec<SavedObject>)
        requires
            old(self).wf(),
            old(self).next_group_id + saved@.len() <= u32::MAX,
        ensures
            final(self).wf(),
            final(self).next_group_id == old(self).next_group_id + saved@.len(),
            final(self).objects@.len() == old(self).objects@.len() + saved@.len(),
            final(self).objects@.take(old(self).objects@.len() as int) == old(self).objects@,
            forall|k: int|
                0 <= k < saved@.len() ==> restored_from(
                    #[trigger] saved@[k],
                    (old(self).next_group_id + k) as u32,
                    final(self).objects@[old(self).objects@.len() + k],
                ),
            final(self).basement_placed.0 == (old(self).basement_placed.0 || exists|k: int|
                0 <= k < saved@.len() && #[trigger] saved@[k].slot_name@ == "basement"@),
            final(self).money == old(self).money,
            final(self).same_grounds(*old(self)),
    {
        let ghost n0 = self.objects@.len();
        let mut k: usize = 0;
        while k < saved.len()
            invariant
                k <= saved@.len(),
                n0 == old(self).objects@.len(),
                self.wf(),
                self.next_group_id == old(self).next_group_id + k,
                old(self).next_group_id + saved@.len() <= u32::MAX,
                self.objects@.len() == n0 + k,
                self.objects@.take(n0 as int) == old(self).objects@,
                forall|m: int|
                    0 <= m < k ==> restored_from(
                        #[trigger] saved@[m],
                        (old(self).next_group_id + m) as u32,
                        self.objects@[n0 + m],
                    ),
                self.basement_placed.0 == (old(self).basement_placed.0 || exists|m: int|
                    0 <= m < k && #[trigger] saved@[m].slot_name@ == "basement"@),
                self.money == old(self).money,
                self.same_grounds(*old(self)),
            decreases saved@.len() - k,
        {
            let s = &saved[k];
            let name = s.slot_name.as_str();
            let slot = make_slot(name);
            let is_carpet = is_carpet_name(name);
            let is_light = is_light_name(name);
            let ghost before = *self;
            let id = self.add_group_object(
                s.x,
                s.y,
                slot.obj.width,
                slot.obj.height,
                slot.obj.path,
                slot.obj.texture_count,
                is_carpet,
                is_light,
                name,
            );
            let last = self.objects.len() - 1;
            let mut p = self.objects.remove(last);
            let is_basement = str_eq(name, "basement");
            if is_basement {
                self.basement_placed = BasementPlaced(true);
            } else if str_eq(name, "rack") || str_eq(name, "box") || str_eq(name, "candies") {
                p.food = Some(FoodStorage { food_count: s.food_count, max_food: s.max_food });
            }
            if str_eq(name, "fence") || str_eq(name, "street_fence") {
                p.fence = Some(FenceComponent { name: string_of(&chars_of(name)) });
            }
            self.objects.push(p);
            proof {
                crate::shop::lemma_kind_names();
                assert(self.objects@.drop_last() =~= before.objects@);
                assert forall|m: int| 0 <= m < self.objects@.len() implies #[trigger] self.info(m).group_id
                    < self.next_group_id by {
                    if m < before.objects@.len() {
                        assert(self.info(m) == before.info(m));
                    }
                }
                assert forall|a: int, b: int|
                    0 <= a < b < self.objects@.len() implies #[trigger] self.info(a).group_id
                    != #[trigger] self.info(b).group_id by {
                    assert(self.info(a) == before.info(a));
                    if b < before.objects@.len() {
                        assert(self.info(b) == before.info(b));
                    }
                }
                assert(self.objects@.take(n0 as int) =~= old(self).objects@) by {
                    assert(before.objects@.take(n0 as int) == old(self).objects@);
                }
                assert forall|m: int| 0 <= m < k + 1 implies restored_from(
                    #[trigger] saved@[m],
                    (old(self).next_group_id + m) as u32,
                    self.objects@[n0 + m],
                ) by {
                    if m < k {
                        assert(self.objects@[n0 + m] == before.objects@[n0 + m]);
                    }
                }
                if is_basement {
                    assert(saved@[k as int].slot_name@ == "basement"@);
                }
                assert(self.basement_placed.0 == (old(self).basement_placed.0 || exists|m: int|
                    0 <= m < k + 1 && #[trigger] saved@[m].slot_name@ == "basement"@)) by {
                    if exists|m: int| 0 <= m < k + 1 && #[trigger] saved@[m].slot_name@ == "basement"@ {
                        let m = choose|m: int| 0 <= m < k + 1 && #[trigger] saved@[m].slot_name@ == "basement"@;
                        if m == k {
                        }
                    }
                }
            }
            k = k + 1;
        }
    }

    /// Marks the staircase of the basement as placed and draws it at its
    /// fixed place, cell (-6, 3), one cell wide and two high.
    pub fn place_basement_exit(&mut self) -> (id: u32)
        requires
            old(self).wf(),
            old(self).next_group_id < u32::MAX,
        ensures
            final(self).wf(),
            id == old(self).next_group_id,
            final(self).next_group_id == old(self).next_group_id + 1,
            final(self).objects@.drop_last() == old(self).objects@,
            final(self).objects@.len() == old(self).objects@.len() + 1,
            final(self).objects@.last().info == (GroupInfo {
                group_id: id,
                width: 1,
                height: 2,
                pos_x: -6i32,
                pos_y: 3i32,
                is_carpet: false,
                is_light: false,
                spanning: false,
            }),
            final(self).objects@.last().tag.name@ == "basement"@,
            final(self).objects@.last().texture@ == "tex/decor/regular/basement.png"@,
            final(self).objects@.last().food is None,
            final(self).objects@.last().fence is None,
            final(self).basement_placed.0,
            final(self).money == old(self).money,
            final(self).same_grounds(*old(self)),
    {
        let id = self.add_group_object(-6, 3, 1, 2, "tex/decor/regular/basement.png", [1, 2], false, false, "basement");
        let ghost mid = *self;
        self.basement_placed = BasementPlaced(true);
        proof {
            mid.lemma_wf_same_objects(*self);
            reveal_strlit("basement");
        }
        id
    }
}

/// A snapshot entry that rebuilding keeps as it is: its layer is the one
/// its name gives, and it holds no food unless its kind keeps food.
pub open spec fn stable_entry(s: SavedObject) -> bool {
    &&& s.is_carpet == listed(carpet_name_list(), s.slot_name@)
    &&& (!keeps_food(s.slot_name@) ==> s.food_count == 0 && s.max_food == 0)
}

/// Rebuilding objects from a snapshot and taking their snapshot again
/// gives back the snapshot, entry by entry, for entries that rebuilding
/// keeps as they are.
pub proof fn law_snapshot_roundtrip(s: SavedObject, id: u32, p: Placed, t: SavedObject)
    requires
        stable_entry(s),
        restored_from(s, id, p),
        saved_of(p, t),
    ensures
        t.slot_name@ == s.slot_name@,
        t.x == s.x,
        t.y == s.y,
        t.food_count == s.food_count,
        t.max_food == s.max_food,
        t.is_carpet == s.is_carpet,
{
}

/// The tokens of a list of (cell, token) entries; a later entry for a cell
/// replaces an earlier one.
pub open spec fn token_map_of(list: Seq<(Node, String)>) -> Map<Node, Seq<char>>
    decreases list.len(),
{
    if list.len() == 0 {
        Map::empty()
    } else {
        token_map_of(list.drop_last()).insert(list.last().0, list.last().1@)
    }
}

/// The grid `g` with each entry's token put back on its cell.
pub open spec fn overwrite(g: Seq<Seq<Seq<char>>>, list: Seq<(Node, String)>) -> Seq<Seq<Seq<char>>>
    decreases list.len(),
{
    if list.len() == 0 {
        g
    } else {
        let h = overwrite(g, list.drop_last());
        set_token(h, row_of(list.last().0), col_of(list.last().0), list.last().1@)
    }
}

/// A grid of strings as it is kept for a level.
fn copy_grid(g: &Vec<Vec<String>>) -> (r: Vec<Vec<String>>)
    ensures
        grid_view(r@) == grid_view(g@),
{
    let mut r: Vec<Vec<String>> = Vec::new();
    let mut j: usize = 0;
    while j < g.len()
        invariant
            j <= g@.len(),
            r@.len() == j,
            forall|k: int| 0 <= k < j ==> (#[trigger] r@[k])@.map_values(|t: String| t@) == g@[k]@.map_values(|t: String| t@),
        decreases g@.len() - j,
    {
        let mut row: Vec<String> = Vec::new();
        let mut i: usize = 0;
        while i < g[j].len()
            invariant
                j < g@.len(),
                i <= g@[j as int]@.len(),
                row@.len() == i,
                forall|k: int| 0 <= k < i ==> (#[trigger] row@[k])@ == g@[j as int]@[k]@,
            decreases g@[j as int]@.len() - i,
        {
            row.push(string_of(&chars_of(g[j][i].as_str())));
            i = i + 1;
        }
        assert(row@.map_values(|t: String| t@) =~= g@[j as int]@.map_values(|t: String| t@));
        r.push(row);
        j = j + 1;
    }
    assert(grid_view(r@) =~= grid_view(g@)) by {
        assert forall|k: int| 0 <= k < r@.len() implies #[trigger] grid_view(r@)[k] == grid_view(g@)[k] by {
        }
    }
    r
}

/// What is kept of a level while the player is on another one: its grid,
/// its map tokens and its objects.
pub struct LevelState {
    pub map_grid: Vec<Vec<String>>,
    pub original_tokens: Vec<(Node, String)>,
    pub objects: Vec<SavedObject>,
}

proof fn lemma_token_map_of_entries(list: Seq<(Node, String)>, m: Map<Node, Seq<char>>, k: int)
    requires
        0 <= k <= list.len(),
        forall|i: int, j: int| 0 <= i < j < list.len() ==> list[i].0 != list[j].0,
        forall|i: int| 0 <= i < list.len() ==> #[trigger] m.contains_key(list[i].0) && list[i].1@ == m[list[i].0],
    ensures
        forall|n: Node| #[trigger] token_map_of(list.take(k)).contains_key(n) <==> exists|i: int| 0 <= i < k && list[i].0 == n,
        forall|n: Node| #[trigger] token_map_of(list.take(k)).contains_key(n) ==> token_map_of(list.take(k))[n] == m[n],
    decreases k,
{
    if k > 0 {
        lemma_token_map_of_entries(list, m, k - 1);
        assert(list.take(k).drop_last() =~= list.take(k - 1));
        let last = list[k - 1];
        assert(list.take(k).last() == last);
        assert(token_map_of(list.take(k)) == token_map_of(list.take(k - 1)).insert(last.0, last.1@));
        assert(m.contains_key(list[k - 1].0));
        assert forall|n: Node| #[trigger] token_map_of(list.take(k)).contains_key(n) <==> exists|i: int|
            0 <= i < k && list[i].0 == n by {
            if n == last.0 {
                assert(list[k - 1].0 == n);
            } else if exists|i: int| 0 <= i < k && list[i].0 == n {
                let i = choose|i: int| 0 <= i < k && list[i].0 == n;
                assert(i < k - 1);
            }
        }
    } else {
        assert(list.take(0) =~= Seq::<(Node, String)>::empty());
    }
}

impl Shop {
    /// What is kept of the shop's level (see `LevelState`).
    pub fn save_level(&self) -> (r: LevelState)
        ensures
            grid_view(r.map_grid@) == self.map_view().grid,
            token_map_of(r.original_tokens@) == self.original_tokens@,
            forall|i: int, j: int|
                0 <= i < j < r.original_tokens@.len() ==> r.original_tokens@[i].0 != r.original_tokens@[j].0,
            forall|i: int|
                0 <= i < r.original_tokens@.len() ==> self.original_tokens@.contains_key(#[trigger] r.original_tokens@[i].0),
            r.objects@.len() == self.objects@.len(),
            forall|k: int| 0 <= k < r.objects@.len() ==> saved_of(self.objects@[k], #[trigger] r.objects@[k]),
    {
        let entries = self.original_tokens.entries();
        proof {
            let m = self.original_tokens@;
            let list = entries@;
            assert forall|i: int| 0 <= i < list.len() implies #[trigger] m.contains_key(list[i].0) && list[i].1@
                == m[list[i].0] by {
                assert(self.original_tokens.order().contains(list[i].0));
            }
            lemma_token_map_of_entries(list, m, list.len() as int);
            assert(list.take(list.len() as int) =~= list);
            assert forall|n: Node| #[trigger] token_map_of(list).contains_key(n) == m.contains_key(n) by {
                if m.contains_key(n) {
                    let i = self.original_tokens.order().index_of(n);
                    assert(list[i].0 == n);
                }
            }
            assert(token_map_of(list) =~= m);
        }
        LevelState { map_grid: copy_grid(&self.map_grid), original_tokens: entries, objects: self.save_objects() }
    }

    /// Clears the level: no objects, group ids from 1, no map, no pending
    /// food animations, no staircase. Money, stock, the cash desks in use
    /// and the level number stay.
    pub fn clear_world(&mut self)
        ensures
            final(self).wf(),
            final(self).objects@.len() == 0,
            final(self).next_group_id == 1,
            final(self).pending_food_adds@.len() == 0,
            final(self).map_grid@.len() == 0,
            final(self).original_tokens@ == Map::<Node, Seq<char>>::empty(),
            final(self).floor_positions@ == Set::<Node>::empty(),
            final(self).wall_positions@ == Set::<Node>::empty(),
            final(self).outdoor_positions@ == Set::<Node>::empty(),
            final(self).flower_positions@ == Set::<Node>::empty(),
            final(self).floor_placed_positions@ == Set::<Node>::empty(),
            final(self).floor_placeable_positions@ == Set::<Node>::empty(),
            !final(self).basement_placed.0,
            final(self).money == old(self).money,
            final(self).total_food == old(self).total_food,
            final(self).busy_cassas == old(self).busy_cassas,
            final(self).current_level == old(self).current_level,
    {
        self.objects = Vec::new();
        self.next_group_id = 1;
        self.pending_food_adds = Vec::new();
        self.map_grid = Vec::new();
        self.original_tokens = TokenMap::new();
        self.floor_positions = CellSet::new();
        self.wall_positions = CellSet::new();
        self.outdoor_positions = CellSet::new();
        self.flower_positions = CellSet::new();
        self.floor_placed_positions = CellSet::new();
        self.floor_placeable_positions = CellSet::new();
        self.basement_placed = BasementPlaced(false);
    }
}

/// Cells of grid `g` before row `bj`, column `bi` in reading order whose
/// token satisfies `p` (given the token, its row and its column).
pub open spec fn grid_cells(g: Seq<Seq<Seq<char>>>, bj: int, bi: int, p: spec_fn(Seq<char>, int, int) -> bool) -> Set<Node> {
    Set::new(
        |n: Node|
            in_grid(g, row_of(n), col_of(n)) && before(row_of(n), col_of(n), bj, bi) && p(
                g[row_of(n)][col_of(n)],
                row_of(n),
                col_of(n),
            ),
    )
}

/// Cells of grid `g` where floor may be built: corner walls, grass `.`,
/// and walls `&` that are not the bottom of a wall block.
pub open spec fn grid_placeable(g: Seq<Seq<Seq<char>>>) -> spec_fn(Seq<char>, int, int) -> bool {
    |w: Seq<char>, j: int, i: int| w == "/"@ || w == "|"@ || w == "."@ || (w == "&"@ && !bottom_wall(g, j, i))
}

proof fn lemma_grid_cells_step(g: Seq<Seq<Seq<char>>>, j: int, i: int, p: spec_fn(Seq<char>, int, int) -> bool)
    requires
        in_grid(g, j, i),
        j < 16777216,
        i < 16777216,
    ensures
        grid_cells(g, j, i + 1, p) == if p(g[j][i], j, i) {
            grid_cells(g, j, i, p).insert(cell_at(j, i))
        } else {
            grid_cells(g, j, i, p)
        },
{
    let c = cell_at(j, i);
    assert(row_of(c) == j && col_of(c) == i);
    assert forall|n: Node| #[trigger] grid_cells(g, j, i + 1, p).contains(n) == (if p(g[j][i], j, i) {
        grid_cells(g, j, i, p).insert(c)
    } else {
        grid_cells(g, j, i, p)
    }).contains(n) by {
        if row_of(n) == j && col_of(n) == i {
            assert(n == c);
        }
    }
    assert(grid_cells(g, j, i + 1, p) =~= if p(g[j][i], j, i) {
        grid_cells(g, j, i, p).insert(c)
    } else {
        grid_cells(g, j, i, p)
    });
}

proof fn lemma_grid_cells_row(g: Seq<Seq<Seq<char>>>, j: int, p: spec_fn(Seq<char>, int, int) -> bool)
    requires
        0 <= j < g.len(),
    ensures
        grid_cells(g, j, g[j].len() as int, p) == grid_cells(g, j + 1, 0, p),
{
    assert(grid_cells(g, j, g[j].len() as int, p) =~= grid_cells(g, j + 1, 0, p));
}

proof fn lemma_overwrite_shape(g: Seq<Seq<Seq<char>>>, list: Seq<(Node, String)>)
    requires
        forall|i: int| 0 <= i < list.len() ==> in_grid(g, row_of(#[trigger] list[i].0), col_of(list[i].0)),
    ensures
        overwrite(g, list).len() == g.len(),
        forall|r: int| 0 <= r < g.len() ==> (#[trigger] overwrite(g, list)[r]).len() == g[r].len(),
    decreases list.len(),
{
    if list.len() > 0 {
        assert forall|i: int| 0 <= i < list.drop_last().len() implies in_grid(
            g,
            row_of(#[trigger] list.drop_last()[i].0),
            col_of(list.drop_last()[i].0),
        ) by {
            assert(list.drop_last()[i] == list[i]);
        }
        lemma_overwrite_shape(g, list.drop_last());
        assert(in_grid(g, row_of(list[list.len() - 1].0), col_of(list[list.len() - 1].0)));
    }
}

/// A level's objects, map and sets can be rebuilt from `st` without the
/// grid arithmetic leaving its range.
pub open spec fn restorable(st: LevelState) -> bool {
    let g = grid_view(st.map_grid@);
    &&& g.len() < 16777216
    &&& forall|r: int| 0 <= r < g.len() ==> (#[trigger] g[r]).len() < 16777216
    &&& forall|i: int|
        0 <= i < st.original_tokens@.len() ==> in_grid(
            g,
            row_of(#[trigger] st.original_tokens@[i].0),
            col_of(st.original_tokens@[i].0),
        )
}

impl Shop {
    /// Rebuilds a cleared shop's level from `st`: the grid, with every map
    /// token put back on its cell; the map tokens; the sets of walls,
    /// floor, grass and cells where floor may be built, read from that
    /// grid; and the objects (see `Shop::restore_objects`).
    pub fn restore_level(&mut self, st: &LevelState)
        requires
            old(self).wf(),
            old(self).objects@.len() == 0,
            old(self).next_group_id == 1,
            old(self).map_grid@.len() == 0,
            old(self).original_tokens@ == Map::<Node, Seq<char>>::empty(),
            old(self).floor_positions@ == Set::<Node>::empty(),
            old(self).wall_positions@ == Set::<Node>::empty(),
            old(self).outdoor_positions@ == Set::<Node>::empty(),
            old(self).flower_positions@ == Set::<Node>::empty(),
            old(self).floor_placeable_positions@ == Set::<Node>::empty(),
            restorable(*st),
            1 + st.objects@.len() <= u32::MAX,
        ensures
            ({
                let g = overwrite(grid_view(st.map_grid@), st.original_tokens@);
                &&& final(self).map_view().grid == g
                &&& final(self).wall_positions@ == grid_cells(g, g.len() as int, 0, wall_word())
                &&& final(self).floor_positions@ == grid_cells(g, g.len() as int, 0, floor_word())
                &&& final(self).outdoor_positions@ == grid_cells(g, g.len() as int, 0, grass_word())
                &&& final(self).flower_positions@ == grid_cells(g, g.len() as int, 0, grass_word())
                &&& final(self).floor_placeable_positions@ == grid_cells(g, g.len() as int, 0, grid_placeable(g))
            }),
            final(self).floor_placed_positions == old(self).floor_placed_positions,
            final(self).original_tokens@ == token_map_of(st.original_tokens@),
            final(self).wf(),
            final(self).next_group_id == 1 + st.objects@.len(),
            final(self).objects@.len() == st.objects@.len(),
            forall|k: int|
                0 <= k < st.objects@.len() ==> restored_from(#[trigger] st.objects@[k], (1 + k) as u32, final(self).objects@[k]),
            final(self).basement_placed.0 == (old(self).basement_placed.0 || exists|k: int|
                0 <= k < st.objects@.len() && #[trigger] st.objects@[k].slot_name@ == "basement"@),
            final(self).money == old(self).money,
            final(self).total_food == old(self).total_food,
            final(self).busy_cassas == old(self).busy_cassas,
            final(self).pending_food_adds@ == old(self).pending_food_adds@,
            final(self).current_level == old(self).current_level,
    {
        let ghost list = st.original_tokens@;
        let ghost g0 = grid_view(st.map_grid@);
        self.map_grid = copy_grid(&st.map_grid);
        proof {
            lemma_overwrite_shape(g0, list);
            assert(list.take(0) =~= Seq::<(Node, String)>::empty());
            assert(token_map_of(list.take(0)) =~= self.original_tokens@);
        }
        let mut k: usize = 0;
        while k < st.original_tokens.len()
            invariant
                list == st.original_tokens@,
                g0 == grid_view(st.map_grid@),
                restorable(*st),
                k <= list.len(),
                self.map_view().grid == overwrite(g0, list.take(k as int)),
                self.original_tokens@ == token_map_of(list.take(k as int)),
                self.wf(),
                self.objects@.len() == 0,
                self.next_group_id == 1,
                self.floor_positions@ == Set::<Node>::empty(),
                self.wall_positions@ == Set::<Node>::empty(),
                self.outdoor_positions@ == Set::<Node>::empty(),
                self.flower_positions@ == Set::<Node>::empty(),
                self.floor_placeable_positions@ == Set::<Node>::empty(),
                self.floor_placed_positions == old(self).floor_placed_positions,
                self.basement_placed == old(self).basement_placed,
                self.money == old(self).money,
                self.total_food == old(self).total_food,
                self.busy_cassas == old(self).busy_cassas,
                self.pending_food_adds == old(self).pending_food_adds,
                self.current_level == old(self).current_level,
            decreases list.len() - k,
        {
            let n = st.original_tokens[k].0;
            let t = string_of(&chars_of(st.original_tokens[k].1.as_str()));
            let t2 = string_of(&chars_of(st.original_tokens[k].1.as_str()));
            proof {
                assert(in_grid(g0, row_of(list[k as int].0), col_of(list[k as int].0)));
                assert forall|i: int| 0 <= i < list.take(k as int).len() implies in_grid(
                    g0,
                    row_of(#[trigger] list.take(k as int)[i].0),
                    col_of(list.take(k as int)[i].0),
                ) by {
                    assert(list.take(k as int)[i] == list[i]);
                }
                lemma_overwrite_shape(g0, list.take(k as int));
                assert(list.take(k + 1).drop_last() =~= list.take(k as int));
                assert(list.take(k + 1).last() == list[k as int]);
            }
            let r: i64 = 14 - (n.y as i64);
            let c: i64 = (n.x as i64) + 21;
            let ghost before = *self;
            self.original_tokens.insert(n, t);
            self.set_grid_token(r as usize, c as usize, t2);
            proof {
                before.lemma_wf_same_objects(*self);
            }
            k = k + 1;
        }
        proof {
            assert(list.take(list.len() as int) =~= list);
            lemma_overwrite_shape(g0, list);
            lemma_grid_view_len(self.map_grid@);
        }
        let ghost g = self.map_view().grid;
        let ghost placep = grid_placeable(g);
        proof {
            assert(grid_cells(g, 0, 0, wall_word()) =~= Set::<Node>::empty());
            assert(grid_cells(g, 0, 0, floor_word()) =~= Set::<Node>::empty());
            assert(grid_cells(g, 0, 0, grass_word()) =~= Set::<Node>::empty());
            assert(grid_cells(g, 0, 0, placep) =~= Set::<Node>::empty());
        }
        let mut j: usize = 0;
        while j < self.map_grid.len()
            invariant
                g == self.map_view().grid,
                placep == grid_placeable(g),
                g.len() < 16777216,
                forall|r: int| 0 <= r < g.len() ==> (#[trigger] g[r]).len() < 16777216,
                j <= g.len(),
                self.wall_positions@ == grid_cells(g, j as int, 0, wall_word()),
                self.floor_positions@ == grid_cells(g, j as int, 0, floor_word()),
                self.outdoor_positions@ == grid_cells(g, j as int, 0, grass_word()),
                self.flower_positions@ == grid_cells(g, j as int, 0, grass_word()),
                self.floor_placeable_positions@ == grid_cells(g, j as int, 0, placep),
                self.original_tokens@ == token_map_of(list),
                self.wf(),
                self.objects@.len() == 0,
                self.next_group_id == 1,
                self.floor_placed_positions == old(self).floor_placed_positions,
                self.basement_placed == old(self).basement_placed,
                self.money == old(self).money,
                self.total_food == old(self).total_food,
                self.busy_cassas == old(self).busy_cassas,
                self.pending_food_adds == old(self).pending_food_adds,
                self.current_level == old(self).current_level,
            decreases g.len() - j,
        {
            proof {
                lemma_grid_view_len(self.map_grid@);
            }
            let mut i: usize = 0;
            while i < self.map_grid[j].len()
                invariant
                    g == self.map_view().grid,
                    placep == grid_placeable(g),
                    g.len() < 16777216,
                    forall|r: int| 0 <= r < g.len() ==> (#[trigger] g[r]).len() < 16777216,
                    j < g.len(),
                    i <= g[j as int].len(),
                    self.map_grid@.len() == g.len(),
                    self.map_grid@[j as int]@.len() == g[j as int].len(),
                    self.wall_positions@ == grid_cells(g, j as int, i as int, wall_word()),
                    self.floor_positions@ == grid_cells(g, j as int, i as int, floor_word()),
                    self.outdoor_positions@ == grid_cells(g, j as int, i as int, grass_word()),
                    self.flower_positions@ == grid_cells(g, j as int, i as int, grass_word()),
                    self.floor_placeable_positions@ == grid_cells(g, j as int, i as int, placep),
                    self.original_tokens@ == token_map_of(list),
                    self.wf(),
                    self.objects@.len() == 0,
                    self.next_group_id == 1,
                    self.floor_placed_positions == old(self).floor_placed_positions,
                    self.basement_placed == old(self).basement_placed,
                    self.money == old(self).money,
                    self.total_food == old(self).total_food,
                    self.busy_cassas == old(self).busy_cassas,
                    self.pending_food_adds == old(self).pending_food_adds,
                    self.current_level == old(self).current_level,
                decreases g[j as int].len() - i,
            {
                proof {
                    lemma_grid_view_len(self.map_grid@);
                }
                let token = string_of(&chars_of(self.map_grid[j][i].as_str()));
                let ghost w = g[j as int][i as int];
                assert(token@ == w);
                let n = Node::new(i as i32 - 21, 14 - j as i32);
                proof {
                    assert(n == cell_at(j as int, i as int));
                    lemma_grid_cells_step(g, j as int, i as int, wall_word());
                    lemma_grid_cells_step(g, j as int, i as int, floor_word());
                    lemma_grid_cells_step(g, j as int, i as int, grass_word());
                    lemma_grid_cells_step(g, j as int, i as int, placep);
                }
                let is_wall = str_eq(token.as_str(), "=") || str_eq(token.as_str(), "-");
                let is_floor = str_eq(token.as_str(), "0");
                let is_grass = crate::map::is_grass_token(token.as_str());
                let keeps = str_eq(token.as_str(), "/") || str_eq(token.as_str(), "|") || str_eq(token.as_str(), ".");
                let on_wall = str_eq(token.as_str(), "&") && !self.is_bottom_wall(j, i);
                let ghost before = *self;
                if is_wall {
                    self.wall_positions.insert(n);
                } else if is_floor {
                    self.floor_positions.insert(n);
                }
                if is_grass {
                    self.outdoor_positions.insert(n);
                    self.flower_positions.insert(n);
                }
                if keeps || on_wall {
                    self.floor_placeable_positions.insert(n);
                }
                proof {
                    before.lemma_wf_same_objects(*self);
                    assert(wall_word()(w, j as int, i as int) == is_wall);
                    assert(grass_word()(w, j as int, i as int) == is_grass);
                    assert(floor_word()(w, j as int, i as int) == (!is_wall && is_floor)) by {
                        if is_wall {
                            reveal_strlit("=");
                            reveal_strlit("-");
                            reveal_strlit("0");
                        }
                    }
                    assert(placep(w, j as int, i as int) == (keeps || on_wall));
                }
                i = i + 1;
            }
            proof {
                lemma_grid_cells_row(g, j as int, wall_word());
                lemma_grid_cells_row(g, j as int, floor_word());
                lemma_grid_cells_row(g, j as int, grass_word());
                lemma_grid_cells_row(g, j as int, placep);
            }
            j = j + 1;
        }
        self.restore_objects(&st.objects);
    }
}

impl LevelState {
    /// Whether the level can be rebuilt from this state (see `restorable`).
    pub fn is_restorable(&self) -> (b: bool)
        ensures
            b == restorable(*self),
    {
        proof {
            lemma_grid_view_len(self.map_grid@);
        }
        if self.map_grid.len() >= 16777216 {
            return false;
        }
        let mut r: usize = 0;
        while r < self.map_grid.len()
            invariant
                r <= self.map_grid@.len(),
                forall|q: int| 0 <= q < r ==> (#[trigger] grid_view(self.map_grid@)[q]).len() < 16777216,
            decreases self.map_grid@.len() - r,
        {
            proof {
                lemma_grid_view_len(self.map_grid@);
            }
            if self.map_grid[r].len() >= 16777216 {
                assert((grid_view(self.map_grid@)[r as int]).len() >= 16777216);
                return false;
            }
            r = r + 1;
        }
        let mut k: usize = 0;
        while k < self.original_tokens.len()
            invariant
                k <= self.original_tokens@.len(),
                forall|i: int|
                    0 <= i < k ==> in_grid(
                        grid_view(self.map_grid@),
                        row_of(#[trigger] self.original_tokens@[i].0),
                        col_of(self.original_tokens@[i].0),
                    ),
            decreases self.original_tokens@.len() - k,
        {
            proof {
                lemma_grid_view_len(self.map_grid@);
            }
            let n = self.original_tokens[k].0;
            let row: i64 = 14 - (n.y as i64);
            let col: i64 = (n.x as i64) + 21;
            if row < 0 || (row as u64) >= (self.map_grid.len() as u64) {
                return false;
            }
            if col < 0 || (col as u64) >= (self.map_grid[row as usize].len() as u64) {
                return false;
            }
            k = k + 1;
        }
        true
    }
}

/// What the player left behind on other levels, by level number: at most
/// one state per level.
pub struct LevelCache {
    states: Vec<(i32, LevelState)>,
}

impl LevelCache {
    #[verifier::type_invariant]
    spec fn one_per_level(self) -> bool {
        forall|i: int, j: int| 0 <= i < j < self.states@.len() ==> self.states@[i].0 != self.states@[j].0
    }

    /// The kept states, by level.
    pub closed spec fn kept(self) -> Map<i32, LevelState> {
        Map::new(
            |l: i32| exists|i: int| 0 <= i < self.states@.len() && self.states@[i].0 == l,
            |l: i32| self.states@[choose|i: int| 0 <= i < self.states@.len() && self.states@[i].0 == l].1,
        )
    }

    /// No level kept.
    pub fn new() -> (c: LevelCache)
        ensures
            c.kept() == Map::<i32, LevelState>::empty(),
    {
        let c = LevelCache { states: Vec::new() };
        assert(c.kept() =~= Map::<i32, LevelState>::empty());
        c
    }

    /// Keeps `st` as the state of `level`, in place of what was kept for it.
    pub fn put(&mut self, level: i32, st: LevelState)
        ensures
            final(self).kept() == old(self).kept().insert(level, st),
    {
        proof {
            use_type_invariant(&*self);
        }
        let ghost before = self.states@;
        let mut i: usize = 0;
        while i < self.states.len()
            invariant
                self.states@ == before,
                i <= before.len(),
                self.one_per_level(),
                forall|j: int| 0 <= j < i ==> before[j].0 != level,
            ensures
                i <= before.len(),
                forall|j: int| 0 <= j < i ==> before[j].0 != level,
                i < before.len() ==> before[i as int].0 == level,
            decreases before.len() - i,
        {
            if self.states[i].0 == level {
                break;
            }
            i = i + 1;
        }
        let ghost old_kept = self.kept();
        if i < self.states.len() {
            let mut states = Vec::new();
            std::mem::swap(&mut states, &mut self.states);
            states.set(i, (level, st));
            assert forall|a: int, b: int| 0 <= a < b < states@.len() implies states@[a].0 != states@[b].0 by {
                if a != i && b != i {
                    assert(states@[a] == before[a] && states@[b] == before[b]);
                } else if a == i {
                    assert(states@[b] == before[b]);
                } else {
                    assert(states@[a] == before[a]);
                }
            }
            self.states = states;
        } else {
            let mut states = Vec::new();
            std::mem::swap(&mut states, &mut self.states);
            states.push((level, st));
            assert forall|a: int, b: int| 0 <= a < b < states@.len() implies states@[a].0 != states@[b].0 by {
                if b < before.len() {
                    assert(states@[a] == before[a] && states@[b] == before[b]);
                } else {
                    assert(states@[a] == before[a]);
                }
            }
            self.states = states;
        }
        proof {
            let now = self.states@;
            assert(forall|j: int| 0 <= j < before.len() && j != i ==> now[j] == before[j]);
            assert(now.len() == before.len() || now.len() == before.len() + 1);
            assert(now[i as int] == (level, st));
            assert forall|l: i32| #[trigger] self.kept().contains_key(l) == old_kept.insert(level, st).contains_key(l) by {
                if l != level && old_kept.contains_key(l) {
                    let c = choose|c: int| 0 <= c < before.len() && before[c].0 == l;
                    assert(now[c].0 == l);
                }
                if l != level && self.kept().contains_key(l) {
                    let c = choose|c: int| 0 <= c < now.len() && now[c].0 == l;
                    assert(before[c].0 == l);
                }
            }
            assert forall|l: i32| #[trigger] self.kept().contains_key(l) implies self.kept()[l] == old_kept.insert(
                level,
                st,
            )[l] by {
                let c = choose|c: int| 0 <= c < now.len() && now[c].0 == l;
                if l == level {
                    assert(c == i);
                } else {
                    assert(before[c].0 == l);
                    let d = choose|d: int| 0 <= d < before.len() && before[d].0 == l;
                    assert(c == d);
                }
            }
            assert(self.kept() =~= old_kept.insert(level, st));
        }
    }

    /// The levels that have a kept state, each once.
    pub fn levels(&self) -> (r: Vec<i32>)
        ensures
            forall|l: i32| #[trigger] r@.contains(l) <==> self.kept().contains_key(l),
            forall|i: int, j: int| 0 <= i < j < r@.len() ==> r@[i] != r@[j],
    {
        proof {
            use_type_invariant(self);
        }
        let mut r: Vec<i32> = Vec::new();
        let mut i: usize = 0;
        while i < self.states.len()
            invariant
                i <= self.states@.len(),
                self.one_per_level(),
                r@.len() == i,
                forall|k: int| 0 <= k < i ==> r@[k] == #[trigger] self.states@[k].0,
            decreases self.states@.len() - i,
        {
            r.push(self.states[i].0);
            i = i + 1;
        }
        proof {
            assert forall|l: i32| #[trigger] r@.contains(l) <==> self.kept().contains_key(l) by {
                if r@.contains(l) {
                    let k = choose|k: int| 0 <= k < r@.len() && r@[k] == l;
                    assert(self.states@[k].0 == l);
                }
                if self.kept().contains_key(l) {
                    let k = choose|k: int| 0 <= k < self.states@.len() && self.states@[k].0 == l;
                    assert(r@[k] == l);
                }
            }
            assert forall|a: int, b: int| 0 <= a < b < r@.len() implies r@[a] != r@[b] by {
                assert(r@[a] == self.states@[a].0 && r@[b] == self.states@[b].0);
            }
        }
        r
    }

    /// The state kept for `level`, if any.
    pub fn get(&self, level: i32) -> (r: Option<&LevelState>)
        ensures
            match r {
                Some(s) => self.kept().contains_key(level) && *s == self.kept()[level],
                None => !self.kept().contains_key(level),
            },
    {
        proof {
            use_type_invariant(self);
        }
        let mut i: usize = 0;
        while i < self.states.len()
            invariant
                i <= self.states@.len(),
                self.one_per_level(),
                forall|j: int| 0 <= j < i ==> self.states@[j].0 != level,
            decreases self.states@.len() - i,
        {
            if self.states[i].0 == level {
                proof {
                    let c = choose|c: int| 0 <= c < self.states@.len() && self.states@[c].0 == level;
                    assert(c == i);
                }
                return Some(&self.states[i].1);
            }
            i = i + 1;
        }
        None
    }
}

/// The shop's current level can be rebuilt from what `Shop::save_level`
/// keeps of it (see `restorable`).
pub open spec fn restorable_now(shop: Shop) -> bool {
    let g = shop.map_view().grid;
    &&& g.len() < 16777216
    &&& forall|r: int| 0 <= r < g.len() ==> (#[trigger] g[r]).len() < 16777216
    &&& forall|n: Node| #[trigger] shop.original_tokens@.contains_key(n) ==> in_grid(g, row_of(n), col_of(n))
}

/// Moves the player from the shop's level to level `new_level`. Unless
/// `skip_save`, the level left is kept in `cache` (see `Shop::save_level`).
/// The shop is cleared (see `Shop::clear_world`) with no cash desk in use,
/// and the new level is rebuilt from what `cache` keeps for it (see
/// `Shop::restore_level`). Returns whether there was such a state; without
/// one the level is to be built from its map file.
pub fn switch_level(shop: &mut Shop, cache: &mut LevelCache, new_level: i32, skip_save: bool) -> (restored: bool)
    requires
        skip_save || new_level != old(shop).current_level ==> (old(cache).kept().contains_key(new_level) ==> restorable(
            old(cache).kept()[new_level],
        ) && 1 + old(cache).kept()[new_level].objects@.len() <= u32::MAX),
        !skip_save && new_level == old(shop).current_level ==> restorable_now(*old(shop)) && old(shop).objects@.len()
            < u32::MAX,
    ensures
        skip_save ==> final(cache).kept() == old(cache).kept(),
        !skip_save ==> ({
            let st = final(cache).kept()[old(shop).current_level];
            &&& final(cache).kept() == old(cache).kept().insert(old(shop).current_level, st)
            &&& grid_view(st.map_grid@) == old(shop).map_view().grid
            &&& token_map_of(st.original_tokens@) == old(shop).original_tokens@
            &&& st.objects@.len() == old(shop).objects@.len()
            &&& forall|k: int| 0 <= k < old(shop).objects@.len() ==> saved_of(old(shop).objects@[k], #[trigger] st.objects@[k])
        }),
        final(shop).wf(),
        final(shop).current_level == new_level,
        final(shop).busy_cassas.0@ == Set::<Node>::empty(),
        final(shop).money == old(shop).money,
        final(shop).total_food == old(shop).total_food,
        final(shop).pending_food_adds@.len() == 0,
        restored == final(cache).kept().contains_key(new_level),
        !restored ==> final(shop).objects@.len() == 0 && final(shop).map_grid@.len() == 0 && final(shop).next_group_id
            == 1 && !final(shop).basement_placed.0 && final(shop).original_tokens@ == Map::<Node, Seq<char>>::empty()
            && final(shop).floor_positions@ == Set::<Node>::empty() && final(shop).wall_positions@ == Set::<Node>::empty()
            && final(shop).outdoor_positions@ == Set::<Node>::empty() && final(shop).flower_positions@ == Set::<
            Node,
        >::empty() && final(shop).floor_placed_positions@ == Set::<Node>::empty()
            && final(shop).floor_placeable_positions@ == Set::<Node>::empty(),
        restored ==> ({
            let st = final(cache).kept()[new_level];
            let g = overwrite(grid_view(st.map_grid@), st.original_tokens@);
            &&& final(shop).map_view().grid == g
            &&& final(shop).wall_positions@ == grid_cells(g, g.len() as int, 0, wall_word())
            &&& final(shop).floor_positions@ == grid_cells(g, g.len() as int, 0, floor_word())
            &&& final(shop).outdoor_positions@ == grid_cells(g, g.len() as int, 0, grass_word())
            &&& final(shop).flower_positions@ == grid_cells(g, g.len() as int, 0, grass_word())
            &&& final(shop).floor_placeable_positions@ == grid_cells(g, g.len() as int, 0, grid_placeable(g))
            &&& final(shop).floor_placed_positions@ == Set::<Node>::empty()
            &&& final(shop).basement_placed.0 == exists|k: int|
                0 <= k < st.objects@.len() && #[trigger] st.objects@[k].slot_name@ == "basement"@
            &&& final(shop).original_tokens@ == token_map_of(st.original_tokens@)
            &&& final(shop).next_group_id == 1 + st.objects@.len()
            &&& final(shop).objects@.len() == st.objects@.len()
            &&& forall|k: int|
                0 <= k < st.objects@.len() ==> restored_from(#[trigger] st.objects@[k], (1 + k) as u32, final(shop).objects@[k])
        }),
{
    let old_level = shop.current_level;
    if !skip_save {
        let st = shop.save_level();
        proof {
            if new_level == old_level {
                assert forall|i: int| 0 <= i < st.original_tokens@.len() implies in_grid(
                    grid_view(st.map_grid@),
                    row_of(#[trigger] st.original_tokens@[i].0),
                    col_of(st.original_tokens@[i].0),
                ) by {
                    assert(shop.original_tokens@.contains_key(st.original_tokens@[i].0));
                }
            }
        }
        cache.put(old_level, st);
    }
    shop.clear_world();
    shop.busy_cassas = BusyCassas(CellSet::new());
    shop.current_level = new_level;
    match cache.get(new_level) {
        Some(st) => {
            shop.restore_level(st);
            true
        },
        None => false,
    }
}

} // verus!
