//! The map grid of the shop: walls follow the floor built by the player,
//! and grass comes back where floor or walls are taken away.

use vstd::prelude::*;
use crate::pathfinding::Node;
use crate::shop::{Shop, Balance, Money, BasementPlaced, wall_shape_at, covers, rank, named, trunc_half};
use crate::catalog::{Object, configured_price, object_price};
use crate::map::{grass_token, has_word, word_at, map_rows, before, cell_at};
use crate::text::{words, chars_of, split_pieces, split_words, string_of};
use crate::text::str_eq;

verus! {

/// The map part of a shop, as mathematical values.
pub struct MapView {
    pub grid: Seq<Seq<Seq<char>>>,
    pub floor: Set<Node>,
    pub placed: Set<Node>,
    pub placeable: Set<Node>,
    pub outdoor: Set<Node>,
    pub flower: Set<Node>,
}

/// The tokens of a grid of strings.
pub open spec fn grid_view(g: Seq<Vec<String>>) -> Seq<Seq<Seq<char>>> {
    g.map_values(|row: Vec<String>| row@.map_values(|t: String| t@))
}

impl Shop {
    /// The map part of the shop.
    pub open spec fn map_view(self) -> MapView {
        MapView {
            grid: grid_view(self.map_grid@),
            floor: self.floor_positions@,
            placed: self.floor_placed_positions@,
            placeable: self.floor_placeable_positions@,
            outdoor: self.outdoor_positions@,
            flower: self.flower_positions@,
        }
    }

    /// Everything but the map part is as in `o`.
    pub open spec fn same_but_map(self, o: Shop) -> bool {
        &&& self.objects == o.objects
        &&& self.next_group_id == o.next_group_id
        &&& self.money == o.money
        &&& self.total_food == o.total_food
        &&& self.busy_cassas == o.busy_cassas
        &&& self.pending_food_adds == o.pending_food_adds
        &&& self.basement_placed == o.basement_placed
        &&& self.current_level == o.current_level
        &&& self.wall_positions == o.wall_positions
        &&& self.original_tokens == o.original_tokens
    }
}

/// Grid row of cell row `y` (the map's top row is y = 14).
pub open spec fn grid_row(y: int) -> int {
    14 - y
}

/// Grid column of cell column `x` (the map's left column is x = -21).
pub open spec fn grid_col(x: int) -> int {
    x + 21
}

/// Row `r`, column `c` lies in the grid.
pub open spec fn in_grid(g: Seq<Seq<Seq<char>>>, r: int, c: int) -> bool {
    0 <= r < g.len() && 0 <= c < g[r].len()
}

/// The cell above row `r`, column `c` is shop floor (`0`): a wall there
/// is the bottom of a wall block.
pub open spec fn bottom_wall(g: Seq<Seq<Seq<char>>>, r: int, c: int) -> bool {
    0 < r && r - 1 < g.len() && 0 <= c < g[r - 1].len() && g[r - 1][c] == "0"@
}

/// The grid with token `t` at row `r`, column `c`.
pub open spec fn set_token(g: Seq<Seq<Seq<char>>>, r: int, c: int, t: Seq<char>) -> Seq<Seq<Seq<char>>> {
    g.update(r, g[r].update(c, t))
}

/// Floor may be built on a wall `&` unless it is the bottom of a wall
/// block, and on the corner walls `/` and `|`, not on other walls.
pub open spec fn placeable_for_wall(p: Set<Node>, g: Seq<Seq<Seq<char>>>, r: int, c: int, t: Seq<char>, n: Node) -> Set<Node> {
    if t == "&"@ {
        if bottom_wall(g, r, c) { p.remove(n) } else { p.insert(n) }
    } else if t == "/"@ || t == "|"@ {
        p.insert(n)
    } else {
        p.remove(n)
    }
}

/// Cell `n` (at row `r`, column `c`) goes back to the token the map gave
/// it (grass where none is recorded): it is no floor any more, floor may
/// be built there again as the token allows, and grass takes outdoor
/// objects and flowers again.
pub open spec fn revert(m: MapView, orig: Map<Node, Seq<char>>, n: Node, r: int, c: int) -> MapView {
    let o = if orig.contains_key(n) { orig[n] } else { "."@ };
    let g = set_token(m.grid, r, c, o);
    MapView {
        grid: g,
        floor: m.floor.remove(n),
        placed: m.placed.remove(n),
        placeable: if o == "&"@ {
            if bottom_wall(g, r, c) { m.placeable.remove(n) } else { m.placeable.insert(n) }
        } else if !(o == "/"@ || o == "|"@ || o == "."@) {
            m.placeable.remove(n)
        } else {
            m.placeable
        },
        outdoor: if grass_token(o) { m.outdoor.insert(n) } else { m.outdoor },
        flower: if grass_token(o) { m.flower.insert(n) } else { m.flower },
    }
}

/// The wall at cell `n` is brought in line with the floor around it: a
/// wall cell (not floor, not grass) takes the shape the floor gives it,
/// or goes back to its map token where no floor touches it.
pub open spec fn refresh_one(m: MapView, orig: Map<Node, Seq<char>>, n: Node) -> MapView {
    let r = grid_row(n.y as int);
    let c = grid_col(n.x as int);
    if !in_grid(m.grid, r, c) {
        m
    } else {
        let tok = m.grid[r][c];
        if tok == "0"@ || grass_token(tok) {
            m
        } else {
            match wall_shape_at(m.floor, n) {
                Some(ch) => {
                    let t = seq![ch];
                    if t == tok {
                        m
                    } else {
                        let g = set_token(m.grid, r, c, t);
                        MapView { grid: g, placeable: placeable_for_wall(m.placeable, g, r, c, t, n), ..m }
                    }
                },
                None => revert(m, orig, n, r, c),
            }
        }
    }
}

/// The eight directions around a cell, in the order they are visited.
pub open spec fn directions() -> Seq<(int, int)> {
    seq![(0, -1), (0, 1), (-1, 0), (1, 0), (-1, -1), (1, -1), (-1, 1), (1, 1)]
}

/// The walls in the first `i` directions around (`gx`, `gy`), one after
/// the other, brought in line with the floor.
pub open spec fn refresh_dirs(m: MapView, orig: Map<Node, Seq<char>>, gx: int, gy: int, i: nat) -> MapView
    decreases i,
{
    if i == 0 {
        m
    } else {
        let d = directions()[i - 1];
        refresh_one(
            refresh_dirs(m, orig, gx, gy, (i - 1) as nat),
            orig,
            Node { x: (gx + d.0) as i32, y: (gy + d.1) as i32 },
        )
    }
}

/// The cell is far enough from the ends of the coordinate range for the
/// grid arithmetic around it.
pub open spec fn grid_safe(x: int, y: int) -> bool {
    i32::MIN + 2 <= x <= i32::MAX - 22 && i32::MIN + 16 <= y <= i32::MAX - 2
}

pub(crate) proof fn lemma_grid_view_len(g: Seq<Vec<String>>)
    ensures
        grid_view(g).len() == g.len(),
        forall|r: int| 0 <= r < g.len() ==> (#[trigger] grid_view(g)[r]).len() == g[r]@.len(),
        forall|r: int, c: int|
            0 <= r < g.len() && 0 <= c < g[r]@.len() ==> #[trigger] grid_view(g)[r][c] == g[r]@[c]@,
{
}

impl Shop {
    /// The token at row `r`, column `c` of the grid, if there is one.
    fn token_at(&self, r: i64, c: i64) -> (t: Option<String>)
        ensures
            in_grid(self.map_view().grid, r as int, c as int) ==> (t matches Some(s) && s@ == self.map_view().grid[r as int][c as int]),
            !in_grid(self.map_view().grid, r as int, c as int) ==> t is None,
    {
        proof {
            lemma_grid_view_len(self.map_grid@);
        }
        if r < 0 || (r as u64) >= (self.map_grid.len() as u64) {
            return None;
        }
        let row = &self.map_grid[r as usize];
        if c < 0 || (c as u64) >= (row.len() as u64) {
            return None;
        }
        Some(crate::text::string_of(&crate::text::chars_of(row[c as usize].as_str())))
    }

    /// Puts token `t` at row `r`, column `c` of the grid.
    pub(crate) fn set_grid_token(&mut self, r: usize, c: usize, t: String)
        requires
            in_grid(old(self).map_view().grid, r as int, c as int),
        ensures
            final(self).map_view() == (MapView {
                grid: set_token(old(self).map_view().grid, r as int, c as int, t@),
                ..old(self).map_view()
            }),
            final(self).same_but_map(*old(self)),
            final(self).floor_positions == old(self).floor_positions,
            final(self).floor_placed_positions == old(self).floor_placed_positions,
            final(self).floor_placeable_positions == old(self).floor_placeable_positions,
            final(self).outdoor_positions == old(self).outdoor_positions,
            final(self).flower_positions == old(self).flower_positions,
    {
        proof {
            lemma_grid_view_len(self.map_grid@);
        }
        let ghost g0 = self.map_grid@;
        let mut row = self.map_grid.remove(r);
        let ghost row0 = row@;
        row.remove(c);
        row.insert(c, t);
        self.map_grid.insert(r, row);
        proof {
            lemma_grid_view_len(self.map_grid@);
            assert(row@ =~= row0.update(c as int, t));
            assert(self.map_grid@ =~= g0.update(r as int, row));
            let want = set_token(grid_view(g0), r as int, c as int, t@);
            assert(grid_view(self.map_grid@).len() == want.len());
            assert forall|i: int| 0 <= i < want.len() implies #[trigger] grid_view(self.map_grid@)[i] == want[i] by {
                if i == r {
                    assert(grid_view(self.map_grid@)[i] =~= want[i]);
                }
            }
            assert(grid_view(self.map_grid@) =~= want);
        }
    }
}

/// A string holding the characters of `s`.
fn copy_str(s: &str) -> (r: String)
    ensures
        r@ == s@,
{
    crate::text::string_of(&crate::text::chars_of(s))
}

impl Shop {
    /// Whether the wall at row `r`, column `c` is the bottom of a wall
    /// block.
    pub(crate) fn is_bottom_wall(&self, r: usize, c: usize) -> (b: bool)
        ensures
            b == bottom_wall(self.map_view().grid, r as int, c as int),
    {
        proof {
            lemma_grid_view_len(self.map_grid@);
        }
        if r == 0 || r - 1 >= self.map_grid.len() {
            return false;
        }
        let row = &self.map_grid[r - 1];
        if c >= row.len() {
            return false;
        }
        str_eq(row[c].as_str(), "0")
    }

    /// Cell `n`, at row `r` and column `c`, goes back to its map token
    /// (see `revert`).
    pub fn revert_to_grass(&mut self, n: Node, r: usize, c: usize)
        requires
            in_grid(old(self).map_view().grid, r as int, c as int),
        ensures
            final(self).map_view() == revert(old(self).map_view(), old(self).original_tokens@, n, r as int, c as int),
            final(self).same_but_map(*old(self)),
    {
        self.floor_positions.remove(n);
        self.floor_placed_positions.remove(n);
        let original = match self.original_tokens.get(n) {
            Some(t) => t,
            None => copy_str("."),
        };
        let ghost o = original@;
        let is_amp = str_eq(original.as_str(), "&");
        let keeps = str_eq(original.as_str(), "/") || str_eq(original.as_str(), "|") || str_eq(original.as_str(), ".");
        let grass = crate::map::is_grass_token(original.as_str());
        self.set_grid_token(r, c, original);
        if is_amp {
            if self.is_bottom_wall(r, c) {
                self.floor_placeable_positions.remove(n);
            } else {
                self.floor_placeable_positions.insert(n);
            }
        } else if !keeps {
            self.floor_placeable_positions.remove(n);
        }
        if grass {
            self.outdoor_positions.insert(n);
            self.flower_positions.insert(n);
        }
    }

    /// Brings the wall at cell `n` in line with the floor around it (see
    /// `refresh_one`).
    fn refresh_cell(&mut self, n: Node)
        requires
            crate::pathfinding::steppable(n),
            n.x + 21 <= i32::MAX,
            14 - n.y <= i32::MAX,
        ensures
            final(self).map_view() == refresh_one(old(self).map_view(), old(self).original_tokens@, n),
            final(self).same_but_map(*old(self)),
    {
        let r: i64 = 14 - (n.y as i64);
        let c: i64 = (n.x as i64) + 21;
        let tok = match self.token_at(r, c) {
            Some(t) => t,
            None => {
                return;
            },
        };
        if str_eq(tok.as_str(), "0") || crate::map::is_grass_token(tok.as_str()) {
            return;
        }
        proof {
            lemma_grid_view_len(self.map_grid@);
        }
        match self.recompute_wall_token(n.x, n.y) {
            Some(t) => {
                if !str_eq(t, tok.as_str()) {
                    self.set_grid_token(r as usize, c as usize, copy_str(t));
                    if str_eq(t, "&") {
                        if self.is_bottom_wall(r as usize, c as usize) {
                            self.floor_placeable_positions.remove(n);
                        } else {
                            self.floor_placeable_positions.insert(n);
                        }
                    } else if str_eq(t, "/") || str_eq(t, "|") {
                        self.floor_placeable_positions.insert(n);
                    } else {
                        self.floor_placeable_positions.remove(n);
                    }
                }
            },
            None => {
                self.revert_to_grass(n, r as usize, c as usize);
            },
        }
    }

    /// Brings the walls in the eight cells around (`gx`, `gy`) in line
    /// with the floor, one after the other (see `refresh_dirs`).
    pub fn refresh_walls_around(&mut self, gx: i32, gy: i32)
        requires
            grid_safe(gx as int, gy as int),
        ensures
            final(self).map_view() == refresh_dirs(old(self).map_view(), old(self).original_tokens@, gx as int, gy as int, 8),
            final(self).same_but_map(*old(self)),
    {
        let dirs: [(i32, i32); 8] = [(0, -1), (0, 1), (-1, 0), (1, 0), (-1, -1), (1, -1), (-1, 1), (1, 1)];
        let ghost orig = self.original_tokens@;
        let mut i: usize = 0;
        while i < 8
            invariant
                i <= 8,
                grid_safe(gx as int, gy as int),
                orig == old(self).original_tokens@,
                self.map_view() == refresh_dirs(old(self).map_view(), orig, gx as int, gy as int, i as nat),
                self.same_but_map(*old(self)),
                forall|k: int| 0 <= k < 8 ==> (#[trigger] dirs@[k]).0 == directions()[k].0 && dirs@[k].1 == directions()[k].1,
                forall|k: int| 0 <= k < 8 ==> -1 <= (#[trigger] dirs@[k]).0 <= 1 && -1 <= dirs@[k].1 <= 1,
            decreases 8 - i,
        {
            let (dx, dy) = dirs[i];
            self.refresh_cell(Node { x: gx + dx, y: gy + dy });
            i = i + 1;
        }
    }
}

impl Shop {
    /// The object at index `k` is the one picked at cell (`x`, `y`) (see
    /// `Shop::first_pick`): the first of the covering footprints of the
    /// highest removal priority.
    pub open spec fn picked(self, k: int, x: int, y: int) -> bool {
        self.first_pick(k, x, y)
    }

    /// Some footprint covers cell (`x`, `y`).
    pub open spec fn covered(self, x: int, y: int) -> bool {
        exists|k: int| 0 <= k < self.objects@.len() && #[trigger] covers(self.info(k), x, y)
    }

    /// Half the price of the object at index `k`, rounded toward zero: what
    /// removing it gives back.
    pub open spec fn refund(self, k: int, b: Balance) -> int {
        trunc_half(configured_price(b.prices@, self.objects@[k].tag.name@) as int)
    }

    /// Removing an empty cell at (`x`, `y`) takes the floor or wall there
    /// back to the map: floor (`0`), or a wall that grew on grass.
    pub open spec fn map_removable(self, x: int, y: int) -> bool {
        let m = self.map_view();
        let r = grid_row(y);
        let c = grid_col(x);
        let n = Node { x: x as i32, y: y as i32 };
        &&& in_grid(m.grid, r, c)
        &&& (m.grid[r][c] == "0"@ || (!grass_token(m.grid[r][c]) && self.original_tokens@.contains_key(n)
            && grass_token(self.original_tokens@[n])))
    }
}

/// Removes what stands at cell (`gx`, `gy`) and reports whether anything
/// was removed. The object picked there (as `Shop::find_group_at_position`
/// picks) goes, half its price comes back, and removing the staircase
/// allows another. Without an object, floor or a wall grown on grass goes
/// back to its map token and the walls around follow (see `revert` and
/// `refresh_dirs`); anything else stays.
pub fn remove(shop: &mut Shop, gx: i32, gy: i32, balance: &Balance) -> (r: bool)
    requires
        old(shop).wf(),
        grid_safe(gx as int, gy as int),
        forall|k: int|
            old(shop).picked(k, gx as int, gy as int) ==> i32::MIN <= old(shop).money.0 + old(shop).refund(k, *balance)
                <= i32::MAX,
    ensures
        old(shop).covered(gx as int, gy as int) ==> r && exists|k: int|
            #![trigger old(shop).objects@[k]]
            old(shop).picked(k, gx as int, gy as int) && final(shop).objects@ == old(shop).objects@.remove(k)
                && final(shop).money.0 == old(shop).money.0 + old(shop).refund(k, *balance)
                && final(shop).basement_placed.0 == (old(shop).basement_placed.0 && !named(
                old(shop).objects@[k],
                "basement"@,
            )) && final(shop).wf() && final(shop).next_group_id == old(shop).next_group_id && final(shop).same_grounds(
                *old(shop),
            ),
        !old(shop).covered(gx as int, gy as int) && old(shop).map_removable(gx as int, gy as int) ==> r
            && final(shop).map_view() == refresh_dirs(
            revert(
                old(shop).map_view(),
                old(shop).original_tokens@,
                Node { x: gx, y: gy },
                grid_row(gy as int),
                grid_col(gx as int),
            ),
            old(shop).original_tokens@,
            gx as int,
            gy as int,
            8,
        ) && final(shop).same_but_map(*old(shop)),
        !old(shop).covered(gx as int, gy as int) && !old(shop).map_removable(gx as int, gy as int) ==> !r
            && *final(shop) == *old(shop),
{
    match shop.find_group_at_position(gx, gy) {
        Some(gid) => {
            let ghost o = *shop;
            let mut k: usize = 0;
            while k < shop.objects.len() && shop.objects[k].info.group_id != gid
                invariant
                    *shop == o,
                    k <= o.objects@.len(),
                    forall|m: int| 0 <= m < k ==> o.info(m).group_id != gid,
                    exists|j: int| o.has_id(j, gid),
                decreases o.objects@.len() - k,
            {
                k = k + 1;
            }
            let ghost kk = k as int;
            proof {
                if k == o.objects@.len() {
                    let j = choose|j: int| o.has_id(j, gid);
                    assert(o.info(j).group_id != gid);
                }
                assert(o.info(kk).group_id == gid);
                let fp = choose|j: int| #![trigger o.info(j)] o.has_id(j, gid) && o.first_pick(j, gx as int, gy as int);
                assert forall|j: int| o.has_id(j, gid) implies j == kk by {
                    if j != kk {
                        if j < kk {
                            assert(o.info(j).group_id != o.info(kk).group_id);
                        } else {
                            assert(o.info(kk).group_id != o.info(j).group_id);
                        }
                    }
                }
                assert(o.picked(kk, gx as int, gy as int));
            }
            let is_basement = str_eq(shop.objects[k].tag.name.as_str(), "basement");
            let price = object_price(shop.objects[k].tag.name.as_str(), &balance.prices);
            let refund: i32 = if price >= 0 { price / 2 } else { -((-(price as i64)) / 2) as i32 };
            if is_basement {
                shop.basement_placed = BasementPlaced(false);
            }
            shop.money = Money(shop.money.0 + refund);
            let ghost mid = *shop;
            proof {
                o.lemma_wf_same_objects(mid);
            }
            shop.delete_group(gid);
            proof {
                assert(mid.has_id(kk, gid));
                assert(shop.objects@ == o.objects@.remove(kk));
            }
            true
        },
        None => {
            let n = Node { x: gx, y: gy };
            let row: i64 = 14 - (gy as i64);
            let col: i64 = (gx as i64) + 21;
            let tok = match shop.token_at(row, col) {
                Some(t) => t,
                None => {
                    return false;
                },
            };
            proof {
                lemma_grid_view_len(shop.map_grid@);
            }
            let back = if str_eq(tok.as_str(), "0") {
                true
            } else if !crate::map::is_grass_token(tok.as_str()) {
                match shop.original_tokens.get(n) {
                    Some(o) => crate::map::is_grass_token(o.as_str()),
                    None => false,
                }
            } else {
                false
            };
            if back {
                shop.revert_to_grass(n, row as usize, col as usize);
                shop.refresh_walls_around(gx, gy);
                true
            } else {
                false
            }
        },
    }
}

/// Map row of a cell (inverse of `cell_at`).
pub open spec fn row_of(n: Node) -> int {
    14 - n.y
}

/// Map column of a cell (inverse of `cell_at`).
pub open spec fn col_of(n: Node) -> int {
    n.x + 21
}

/// Cells of the words of map text `t` that come before row `bj`, column
/// `bi` in reading order and satisfy `p` (given the word, its row and its
/// column).
pub open spec fn cells_where(t: Seq<char>, bj: int, bi: int, p: spec_fn(Seq<char>, int, int) -> bool) -> Set<Node> {
    Set::new(
        |n: Node|
            has_word(t, row_of(n), col_of(n)) && before(row_of(n), col_of(n), bj, bi) && p(
                word_at(t, row_of(n), col_of(n)),
                row_of(n),
                col_of(n),
            ),
    )
}

/// The words of map text `t` before row `bj`, column `bi`, by cell.
pub open spec fn tokens_before(t: Seq<char>, bj: int, bi: int) -> Map<Node, Seq<char>> {
    Map::new(
        |n: Node| has_word(t, row_of(n), col_of(n)) && before(row_of(n), col_of(n), bj, bi),
        |n: Node| word_at(t, row_of(n), col_of(n)),
    )
}

/// The rows among the first `j` rows of map text `t` that hold words, as
/// lists of words.
pub open spec fn rows_before(t: Seq<char>, j: int) -> Seq<Seq<Seq<char>>>
    decreases j,
{
    if j <= 0 {
        Seq::empty()
    } else {
        let g = rows_before(t, j - 1);
        let w = words(map_rows(t)[j - 1]);
        if w.len() > 0 { g.push(w) } else { g }
    }
}

/// Walls on which nothing can be placed.
pub open spec fn wall_word() -> spec_fn(Seq<char>, int, int) -> bool {
    |w: Seq<char>, j: int, i: int| w == "="@ || w == "-"@
}

/// Shop floor.
pub open spec fn floor_word() -> spec_fn(Seq<char>, int, int) -> bool {
    |w: Seq<char>, j: int, i: int| w == "0"@
}

/// Grass and street.
pub open spec fn grass_word() -> spec_fn(Seq<char>, int, int) -> bool {
    |w: Seq<char>, j: int, i: int| grass_token(w)
}

/// Cells where floor may be built: the corner walls `/` and `|`, grass
/// `.`, and walls `&` that are not the bottom of a wall block. Whether a
/// wall is a bottom is read from the grid built so far, `g0` followed by
/// the rows with words before row `j`, at index `j - 1`.
pub open spec fn placeable_word(g0: Seq<Seq<Seq<char>>>, t: Seq<char>) -> spec_fn(Seq<char>, int, int) -> bool {
    |w: Seq<char>, j: int, i: int|
        w == "/"@ || w == "|"@ || w == "."@ || (w == "&"@ && !bottom_wall(g0 + rows_before(t, j), j, i))
}

proof fn lemma_cells_step(t: Seq<char>, j: int, i: int, p: spec_fn(Seq<char>, int, int) -> bool)
    requires
        has_word(t, j, i),
        j < 16777216,
        i < 16777216,
    ensures
        cells_where(t, j, i + 1, p) == if p(word_at(t, j, i), j, i) {
            cells_where(t, j, i, p).insert(cell_at(j, i))
        } else {
            cells_where(t, j, i, p)
        },
{
    let c = cell_at(j, i);
    assert(row_of(c) == j && col_of(c) == i);
    assert forall|n: Node| #[trigger] cells_where(t, j, i + 1, p).contains(n) == (if p(word_at(t, j, i), j, i) {
        cells_where(t, j, i, p).insert(c)
    } else {
        cells_where(t, j, i, p)
    }).contains(n) by {
        if row_of(n) == j && col_of(n) == i {
            assert(n == c);
        }
    }
    assert(cells_where(t, j, i + 1, p) =~= if p(word_at(t, j, i), j, i) {
        cells_where(t, j, i, p).insert(c)
    } else {
        cells_where(t, j, i, p)
    });
}

proof fn lemma_cells_row(t: Seq<char>, j: int, p: spec_fn(Seq<char>, int, int) -> bool)
    requires
        0 <= j < map_rows(t).len(),
    ensures
        cells_where(t, j, words(map_rows(t)[j]).len() as int, p) == cells_where(t, j + 1, 0, p),
{
    assert(cells_where(t, j, words(map_rows(t)[j]).len() as int, p) =~= cells_where(t, j + 1, 0, p));
}

proof fn lemma_tokens_step(t: Seq<char>, j: int, i: int)
    requires
        has_word(t, j, i),
        j < 16777216,
        i < 16777216,
    ensures
        tokens_before(t, j, i + 1) == tokens_before(t, j, i).insert(cell_at(j, i), word_at(t, j, i)),
{
    let c = cell_at(j, i);
    assert(row_of(c) == j && col_of(c) == i);
    assert forall|n: Node| #[trigger] tokens_before(t, j, i + 1).contains_key(n) == tokens_before(t, j, i).insert(
        c,
        word_at(t, j, i),
    ).contains_key(n) by {
        if row_of(n) == j && col_of(n) == i {
            assert(n == c);
        }
    }
    assert(tokens_before(t, j, i + 1) =~= tokens_before(t, j, i).insert(c, word_at(t, j, i)));
}

proof fn lemma_tokens_row(t: Seq<char>, j: int)
    requires
        0 <= j < map_rows(t).len(),
    ensures
        tokens_before(t, j, words(map_rows(t)[j]).len() as int) == tokens_before(t, j + 1, 0),
{
    assert(tokens_before(t, j, words(map_rows(t)[j]).len() as int) =~= tokens_before(t, j + 1, 0));
}

/// Inserts `n` into `set` where `cond` holds.
fn insert_if(set: &mut crate::cells::CellSet, n: Node, cond: bool)
    ensures
        final(set)@ == if cond { old(set)@.insert(n) } else { old(set)@ },
{
    if cond {
        set.insert(n);
    }
}

impl Shop {
    /// Everything but the map part and the map's tokens is as in `o`.
    pub open spec fn same_stock(self, o: Shop) -> bool {
        &&& self.objects == o.objects
        &&& self.next_group_id == o.next_group_id
        &&& self.money == o.money
        &&& self.total_food == o.total_food
        &&& self.busy_cassas == o.busy_cassas
        &&& self.pending_food_adds == o.pending_food_adds
        &&& self.basement_placed == o.basement_placed
        &&& self.current_level == o.current_level
    }

    /// Reads the map text `text` (rows of tokens separated by white space;
    /// row `j`, column `i` is cell (`i - 21`, `14 - j`)): each row with
    /// tokens joins the grid, each token is recorded as its cell's map
    /// token, and the cells of walls, floor, grass and those where floor
    /// may be built join their sets (see `placeable_word`). Maps of 2^24
    /// characters or more are left out: the game computes a cell from the
    /// row and column as single-precision floats, which above 2^24 no longer
    /// hold every whole number, so the cells there are not these.
    pub fn load_map(&mut self, text: &str)
        requires
            text@.len() < 16777216,
        ensures
            final(self).map_view().grid == old(self).map_view().grid + rows_before(text@, map_rows(text@).len() as int),
            final(self).wall_positions@ == old(self).wall_positions@.union(
                cells_where(text@, map_rows(text@).len() as int, 0, wall_word()),
            ),
            final(self).floor_positions@ == old(self).floor_positions@.union(
                cells_where(text@, map_rows(text@).len() as int, 0, floor_word()),
            ),
            final(self).outdoor_positions@ == old(self).outdoor_positions@.union(
                cells_where(text@, map_rows(text@).len() as int, 0, grass_word()),
            ),
            final(self).flower_positions@ == old(self).flower_positions@.union(
                cells_where(text@, map_rows(text@).len() as int, 0, grass_word()),
            ),
            final(self).floor_placeable_positions@ == old(self).floor_placeable_positions@.union(
                cells_where(text@, map_rows(text@).len() as int, 0, placeable_word(old(self).map_view().grid, text@)),
            ),
            final(self).floor_placed_positions == old(self).floor_placed_positions,
            final(self).original_tokens@ == old(self).original_tokens@.union_prefer_right(
                tokens_before(text@, map_rows(text@).len() as int, 0),
            ),
            final(self).same_stock(*old(self)),
    {
        let ghost t = text@;
        let ghost g0 = self.map_view().grid;
        let ghost placep = placeable_word(g0, t);
        let cs = chars_of(text);
        let rows = split_pieces(&cs, '\n');
        proof {
            crate::text::lemma_pieces_bounds(t, '\n');
            assert(cells_where(t, 0, 0, wall_word()) =~= Set::<Node>::empty());
            assert(cells_where(t, 0, 0, floor_word()) =~= Set::<Node>::empty());
            assert(cells_where(t, 0, 0, grass_word()) =~= Set::<Node>::empty());
            assert(cells_where(t, 0, 0, placep) =~= Set::<Node>::empty());
            assert(tokens_before(t, 0, 0) =~= Map::<Node, Seq<char>>::empty());
            assert(self.wall_positions@.union(Set::<Node>::empty()) =~= self.wall_positions@);
            assert(self.floor_positions@.union(Set::<Node>::empty()) =~= self.floor_positions@);
            assert(self.outdoor_positions@.union(Set::<Node>::empty()) =~= self.outdoor_positions@);
            assert(self.flower_positions@.union(Set::<Node>::empty()) =~= self.flower_positions@);
            assert(self.floor_placeable_positions@.union(Set::<Node>::empty()) =~= self.floor_placeable_positions@);
            assert(self.original_tokens@.union_prefer_right(Map::<Node, Seq<char>>::empty()) =~= self.original_tokens@);
            assert(g0 + rows_before(t, 0) =~= g0);
        }
        let mut j: usize = 0;
        while j < rows.len()
            invariant
                t == text@,
                cs@ == t,
                t.len() < 16777216,
                rows@.len() == map_rows(t).len(),
                rows@.len() <= t.len() + 1,
                forall|k: int| 0 <= k < rows@.len() ==> #[trigger] rows@[k]@ == map_rows(t)[k],
                forall|k: int| 0 <= k < rows@.len() ==> #[trigger] map_rows(t)[k].len() <= t.len(),
                j <= rows@.len(),
                placep == placeable_word(g0, t),
                self.map_view().grid == g0 + rows_before(t, j as int),
                self.wall_positions@ == old(self).wall_positions@.union(cells_where(t, j as int, 0, wall_word())),
                self.floor_positions@ == old(self).floor_positions@.union(cells_where(t, j as int, 0, floor_word())),
                self.outdoor_positions@ == old(self).outdoor_positions@.union(cells_where(t, j as int, 0, grass_word())),
                self.flower_positions@ == old(self).flower_positions@.union(cells_where(t, j as int, 0, grass_word())),
                self.floor_placeable_positions@ == old(self).floor_placeable_positions@.union(
                    cells_where(t, j as int, 0, placep),
                ),
                self.floor_placed_positions == old(self).floor_placed_positions,
                self.original_tokens@ == old(self).original_tokens@.union_prefer_right(tokens_before(t, j as int, 0)),
                self.same_stock(*old(self)),
            decreases rows@.len() - j,
        {
            let ws = split_words(&rows[j]);
            proof {
                crate::text::lemma_words_bounds(rows@[j as int]@);
                assert(map_rows(t)[j as int].len() <= t.len());
            }
            let mut grid_row: Vec<String> = Vec::new();
            let mut i: usize = 0;
            while i < ws.len()
                invariant
                    t == text@,
                    t.len() < 16777216,
                    j < rows@.len(),
                    rows@.len() <= t.len() + 1,
                    rows@.len() == map_rows(t).len(),
                    rows@[j as int]@ == map_rows(t)[j as int],
                    ws@.len() == words(map_rows(t)[j as int]).len(),
                    ws@.len() <= t.len(),
                    forall|k: int| 0 <= k < ws@.len() ==> #[trigger] ws@[k]@ == words(map_rows(t)[j as int])[k],
                    i <= ws@.len(),
                    grid_row@.len() == i,
                    forall|k: int| 0 <= k < i ==> #[trigger] grid_row@[k]@ == ws@[k]@,
                    placep == placeable_word(g0, t),
                    self.map_view().grid == g0 + rows_before(t, j as int),
                    self.wall_positions@ == old(self).wall_positions@.union(cells_where(t, j as int, i as int, wall_word())),
                    self.floor_positions@ == old(self).floor_positions@.union(cells_where(t, j as int, i as int, floor_word())),
                    self.outdoor_positions@ == old(self).outdoor_positions@.union(cells_where(t, j as int, i as int, grass_word())),
                    self.flower_positions@ == old(self).flower_positions@.union(cells_where(t, j as int, i as int, grass_word())),
                    self.floor_placeable_positions@ == old(self).floor_placeable_positions@.union(
                        cells_where(t, j as int, i as int, placep),
                    ),
                    self.floor_placed_positions == old(self).floor_placed_positions,
                    self.original_tokens@ == old(self).original_tokens@.union_prefer_right(
                        tokens_before(t, j as int, i as int),
                    ),
                    self.same_stock(*old(self)),
                decreases ws@.len() - i,
            {
                let token = string_of(&ws[i]);
                let n = Node::new(i as i32 - 21, 14 - j as i32);
                let ghost w = word_at(t, j as int, i as int);
                proof {
                    assert(has_word(t, j as int, i as int));
                    assert(token@ == w);
                    assert(n == cell_at(j as int, i as int));
                    lemma_cells_step(t, j as int, i as int, wall_word());
                    lemma_cells_step(t, j as int, i as int, floor_word());
                    lemma_cells_step(t, j as int, i as int, grass_word());
                    lemma_cells_step(t, j as int, i as int, placep);
                    lemma_tokens_step(t, j as int, i as int);
                }
                let is_wall = str_eq(token.as_str(), "=") || str_eq(token.as_str(), "-");
                let is_floor = str_eq(token.as_str(), "0");
                let is_grass = crate::map::is_grass_token(token.as_str());
                let keeps = str_eq(token.as_str(), "/") || str_eq(token.as_str(), "|") || str_eq(token.as_str(), ".");
                let on_wall = str_eq(token.as_str(), "&") && !self.is_bottom_wall(j, i);
                self.original_tokens.insert(n, string_of(&ws[i]));
                insert_if(&mut self.wall_positions, n, is_wall);
                insert_if(&mut self.floor_positions, n, !is_wall && is_floor);
                insert_if(&mut self.outdoor_positions, n, is_grass);
                insert_if(&mut self.flower_positions, n, is_grass);
                insert_if(&mut self.floor_placeable_positions, n, keeps || on_wall);
                grid_row.push(token);
                proof {
                    assert(wall_word()(w, j as int, i as int) == is_wall);
                    assert(grass_word()(w, j as int, i as int) == is_grass);
                    assert(floor_word()(w, j as int, i as int) == (!is_wall && is_floor)) by {
                        if is_wall {
                            crate::shop::lemma_kind_names();
                            reveal_strlit("=");
                            reveal_strlit("-");
                            reveal_strlit("0");
                        }
                    }
                    assert(placep(w, j as int, i as int) == (keeps || on_wall));
                    assert(self.wall_positions@ =~= old(self).wall_positions@.union(cells_where(t, j as int, i + 1, wall_word())));
                    assert(self.floor_positions@ =~= old(self).floor_positions@.union(cells_where(t, j as int, i + 1, floor_word())));
                    assert(self.outdoor_positions@ =~= old(self).outdoor_positions@.union(cells_where(t, j as int, i + 1, grass_word())));
                    assert(self.flower_positions@ =~= old(self).flower_positions@.union(cells_where(t, j as int, i + 1, grass_word())));
                    assert(self.floor_placeable_positions@ =~= old(self).floor_placeable_positions@.union(
                        cells_where(t, j as int, i + 1, placep),
                    ));
                    assert(self.original_tokens@ =~= old(self).original_tokens@.union_prefer_right(
                        tokens_before(t, j as int, i + 1),
                    ));
                }
                i = i + 1;
            }
            proof {
                lemma_cells_row(t, j as int, wall_word());
                lemma_cells_row(t, j as int, floor_word());
                lemma_cells_row(t, j as int, grass_word());
                lemma_cells_row(t, j as int, placep);
                lemma_tokens_row(t, j as int);
                lemma_grid_view_len(self.map_grid@);
            }
            if ws.len() > 0 {
                let ghost before_grid = self.map_grid@;
                self.map_grid.push(grid_row);
                proof {
                    lemma_grid_view_len(self.map_grid@);
                    let wr = words(map_rows(t)[j as int]);
                    assert(self.map_grid@[before_grid.len() as int]@.map_values(|s: String| s@) =~= wr);
                    assert(grid_view(self.map_grid@) =~= grid_view(before_grid).push(wr)) by {
                        assert forall|k: int| 0 <= k < grid_view(self.map_grid@).len() implies #[trigger] grid_view(self.map_grid@)[k]
                            =~= grid_view(before_grid).push(wr)[k] by {
                            if k == before_grid.len() {
                                assert(self.map_grid@[k]@ == grid_row@);
                            }
                        }
                    }
                    assert(g0 + rows_before(t, j + 1) =~= (g0 + rows_before(t, j as int)).push(wr));
                }
            } else {
                proof {
                    assert(rows_before(t, j + 1) == rows_before(t, j as int));
                }
            }
            j = j + 1;
        }
    }
}

/// Placing an object on a cell that no object covers and removing what
/// stands there again leaves the objects as they were and costs the price
/// less the refund of half of it (rounded toward zero).
pub proof fn law_place_then_remove(
    s0: Shop,
    s1: Shop,
    s2: Shop,
    obj: Object,
    gx: i32,
    gy: i32,
    b: Balance,
    id: u32,
    k: int,
)
    requires
        s0.wf(),
        s1.placed_from(s0, obj, gx, gy, b, id),
        !s0.covered(gx as int, gy as int),
        obj.width >= 1,
        obj.height >= 1,
        s1.picked(k, gx as int, gy as int),
        s2.objects@ == s1.objects@.remove(k),
        s2.money.0 == s1.money.0 + s1.refund(k, b),
    ensures
        k == s0.objects@.len(),
        s2.objects@ == s0.objects@,
        s2.money.0 == s0.money.0 - configured_price(b.prices@, obj.name@) + trunc_half(
            configured_price(b.prices@, obj.name@) as int,
        ),
{
    let n = s0.objects@.len() as int;
    if k < n {
        assert(s1.objects@[k] == s0.objects@[k]) by {
            assert(s1.objects@.drop_last()[k] == s1.objects@[k]);
        }
        assert(covers(s0.info(k), gx as int, gy as int));
    }
    assert(s1.objects@.remove(n) =~= s1.objects@.drop_last());
}

} // verus!
