//! The text map: tile tokens, their textures and the walkable cells.

use vstd::prelude::*;
use crate::pathfinding::{abs, Node, Walkable};
use crate::text::{chars_of, pieces, split_pieces, split_words, words};

verus! {

/// Texture atlas of ground tiles.
#[derive(Clone, Copy, Debug, PartialEq, Eq, Structural)]
pub enum Sheet {
    Grass,
    Floor,
    Wall,
}

pub open spec fn sheet_path(s: Sheet) -> Seq<char> {
    match s {
        Sheet::Grass => "tex/map/grass.png"@,
        Sheet::Floor => "tex/map/floor.png"@,
        Sheet::Wall => "tex/map/wall.png"@,
    }
}

/// Frames per row and column of an atlas.
pub open spec fn sheet_count(s: Sheet) -> int {
    match s {
        Sheet::Grass => 4,
        Sheet::Floor => 2,
        Sheet::Wall => 5,
    }
}

/// Atlas and frame (column, row) of a one-character tile token; unknown
/// characters show the shop floor.
pub open spec fn tile_of_char(c: char) -> (Sheet, int, int) {
    if c == '.' { (Sheet::Grass, 0, 0) }
    else if c == '@' { (Sheet::Grass, 0, 2) }
    else if c == '*' { (Sheet::Grass, 2, 2) }
    else if c == 'm' { (Sheet::Grass, 3, 2) }
    else if c == 'f' { (Sheet::Grass, 2, 3) }
    else if c == '~' { (Sheet::Grass, 1, 2) }
    else if c == 'l' { (Sheet::Grass, 0, 3) }
    else if c == '1' { (Sheet::Grass, 0, 1) }
    else if c == '2' { (Sheet::Grass, 1, 1) }
    else if c == '3' { (Sheet::Grass, 2, 1) }
    else if c == '4' { (Sheet::Grass, 1, 0) }
    else if c == '5' { (Sheet::Grass, 2, 0) }
    else if c == '6' { (Sheet::Grass, 3, 0) }
    else if c == '0' { (Sheet::Floor, 0, 0) }
    else if c == '=' { (Sheet::Wall, 0, 0) }
    else if c == '-' { (Sheet::Wall, 0, 1) }
    else if c == '^' { (Sheet::Wall, 1, 0) }
    else if c == '&' { (Sheet::Wall, 1, 1) }
    else if c == '/' { (Sheet::Wall, 0, 2) }
    else if c == '|' { (Sheet::Wall, 1, 2) }
    else if c == '(' { (Sheet::Wall, 0, 3) }
    else if c == '{' { (Sheet::Wall, 0, 4) }
    else if c == ')' { (Sheet::Wall, 1, 3) }
    else if c == '}' { (Sheet::Wall, 1, 4) }
    else if c == '[' { (Sheet::Wall, 2, 0) }
    else if c == ']' { (Sheet::Wall, 4, 0) }
    else if c == ':' { (Sheet::Wall, 2, 1) }
    else if c == ';' { (Sheet::Wall, 4, 1) }
    else if c == 'o' { (Sheet::Wall, 3, 0) }
    else if c == '%' { (Sheet::Wall, 3, 1) }
    else if c == 'q' { (Sheet::Wall, 2, 3) }
    else if c == 'p' { (Sheet::Wall, 3, 3) }
    else if c == 'i' { (Sheet::Wall, 4, 3) }
    else { (Sheet::Floor, 0, 0) }
}

/// Atlas and frame of a tile token.
pub open spec fn tile_of(tok: Seq<char>) -> (Sheet, int, int) {
    if tok.len() == 1 { tile_of_char(tok[0]) } else { (Sheet::Floor, 0, 0) }
}

fn tile_of_char_exec(c: char) -> (r: (Sheet, i32, i32))
    ensures
        r.0 == tile_of_char(c).0,
        r.1 == tile_of_char(c).1,
        r.2 == tile_of_char(c).2,
{
    match c {
        '.' => (Sheet::Grass, 0, 0),
        '@' => (Sheet::Grass, 0, 2),
        '*' => (Sheet::Grass, 2, 2),
        'm' => (Sheet::Grass, 3, 2),
        'f' => (Sheet::Grass, 2, 3),
        '~' => (Sheet::Grass, 1, 2),
        'l' => (Sheet::Grass, 0, 3),
        '1' => (Sheet::Grass, 0, 1),
        '2' => (Sheet::Grass, 1, 1),
        '3' => (Sheet::Grass, 2, 1),
        '4' => (Sheet::Grass, 1, 0),
        '5' => (Sheet::Grass, 2, 0),
        '6' => (Sheet::Grass, 3, 0),
        '0' => (Sheet::Floor, 0, 0),
        '=' => (Sheet::Wall, 0, 0),
        '-' => (Sheet::Wall, 0, 1),
        '^' => (Sheet::Wall, 1, 0),
        '&' => (Sheet::Wall, 1, 1),
        '/' => (Sheet::Wall, 0, 2),
        '|' => (Sheet::Wall, 1, 2),
        '(' => (Sheet::Wall, 0, 3),
        '{' => (Sheet::Wall, 0, 4),
        ')' => (Sheet::Wall, 1, 3),
        '}' => (Sheet::Wall, 1, 4),
        '[' => (Sheet::Wall, 2, 0),
        ']' => (Sheet::Wall, 4, 0),
        ':' => (Sheet::Wall, 2, 1),
        ';' => (Sheet::Wall, 4, 1),
        'o' => (Sheet::Wall, 3, 0),
        '%' => (Sheet::Wall, 3, 1),
        'q' => (Sheet::Wall, 2, 3),
        'p' => (Sheet::Wall, 3, 3),
        'i' => (Sheet::Wall, 4, 3),
        _ => (Sheet::Floor, 0, 0),
    }
}

fn tile_of_exec(token: &str) -> (r: (Sheet, i32, i32))
    ensures
        r.0 == tile_of(token@).0,
        r.1 == tile_of(token@).1,
        r.2 == tile_of(token@).2,
{
    let cs = chars_of(token);
    if cs.len() == 1 {
        tile_of_char_exec(cs[0])
    } else {
        (Sheet::Floor, 0, 0)
    }
}

/// Ground texture of a map token: the atlas path, the frame (column, row)
/// and the number of frames per row and column.
pub fn token_to_texture(token: &str) -> (r: (&'static str, [i32; 2], [i32; 2]))
    ensures
        r.0@ == sheet_path(tile_of(token@).0),
        r.1@ == seq![tile_of(token@).1 as i32, tile_of(token@).2 as i32],
        r.2@ == seq![sheet_count(tile_of(token@).0) as i32, sheet_count(tile_of(token@).0) as i32],
{
    let (sheet, fx, fy) = tile_of_exec(token);
    let r = match sheet {
        Sheet::Grass => ("tex/map/grass.png", [fx, fy], [4, 4]),
        Sheet::Floor => ("tex/map/floor.png", [fx, fy], [2, 2]),
        Sheet::Wall => ("tex/map/wall.png", [fx, fy], [5, 5]),
    };
    assert(r.1@ =~= seq![fx, fy]);
    assert(r.2@ =~= seq![sheet_count(sheet) as i32, sheet_count(sheet) as i32]);
    r
}

/// Frame of a wall token in the wall atlas (5 x 5 frames); tokens that
/// are not walls get the first frame.
pub fn wall_frame_count(token: &str) -> (r: ([i32; 2], [i32; 2]))
    ensures
        tile_of(token@).0 == Sheet::Wall ==> r.0@ == seq![
            tile_of(token@).1 as i32,
            tile_of(token@).2 as i32,
        ],
        tile_of(token@).0 != Sheet::Wall ==> r.0@ == seq![0i32, 0i32],
        r.1@ == seq![5i32, 5i32],
{
    let (sheet, fx, fy) = tile_of_exec(token);
    let r = match sheet {
        Sheet::Wall => ([fx, fy], [5, 5]),
        _ => ([0, 0], [5, 5]),
    };
    assert(r.0@ =~= seq![fx, fy] || r.0@ =~= seq![0i32, 0i32]);
    assert(r.1@ =~= seq![5i32, 5i32]);
    r
}

/// Grass and street tokens: open ground for outdoor objects and flowers.
pub open spec fn grass_char(c: char) -> bool {
    c == '.' || c == '@' || c == '*' || c == 'm' || c == 'f' || c == '~' || c == 'l' || c == '1'
        || c == '2' || c == '3' || c == '4' || c == '5' || c == '6'
}

pub open spec fn grass_token(tok: Seq<char>) -> bool {
    tok.len() == 1 && grass_char(tok[0])
}

/// Tokens of cells on which shoppers can walk: shop floor, grass and the
/// street.
pub open spec fn walkable_char(c: char) -> bool {
    grass_char(c) || c == '!' || c == '0'
}

pub open spec fn walkable_token(tok: Seq<char>) -> bool {
    tok.len() == 1 && walkable_char(tok[0])
}

/// Whether a token is grass (open ground).
pub fn is_grass_token(token: &str) -> (b: bool)
    ensures
        b == grass_token(token@),
{
    let cs = chars_of(token);
    cs.len() == 1 && is_grass_char(cs[0])
}

fn is_grass_char(c: char) -> (b: bool)
    ensures
        b == grass_char(c),
{
    c == '.' || c == '@' || c == '*' || c == 'm' || c == 'f' || c == '~' || c == 'l' || c == '1'
        || c == '2' || c == '3' || c == '4' || c == '5' || c == '6'
}

fn is_walkable_word(w: &Vec<char>) -> (b: bool)
    ensures
        b == walkable_token(w@),
{
    w.len() == 1 && (is_grass_char(w[0]) || w[0] == '!' || w[0] == '0')
}

// ---------------------------------------------------------------------
//  Cells of the map text. Row `j` is the `j`-th piece of the text between
//  newlines (a carriage return before a newline is white space, so the
//  words are those of `str::lines`), column `i` its `i`-th word.
// ---------------------------------------------------------------------

pub open spec fn map_rows(t: Seq<char>) -> Seq<Seq<char>> {
    pieces(t, '\n')
}

/// Row `j` of the map has a word in column `i`.
pub open spec fn has_word(t: Seq<char>, j: int, i: int) -> bool {
    0 <= j < map_rows(t).len() && 0 <= i < words(map_rows(t)[j]).len()
}

pub open spec fn word_at(t: Seq<char>, j: int, i: int) -> Seq<char> {
    words(map_rows(t)[j])[i]
}

/// World cell of column `i`, row `j` of the map (the map's top left word
/// lies at x = -21, y = 14).
pub open spec fn cell_at(j: int, i: int) -> Node {
    Node { x: (i - 21) as i32, y: (14 - j) as i32 }
}

/// Cell (`j`, `i`) holds a walkable token.
pub open spec fn walkable_at(t: Seq<char>, j: int, i: int) -> bool {
    has_word(t, j, i) && walkable_token(word_at(t, j, i))
}

/// (`j`, `i`) comes before (`bj`, `bi`) in reading order.
pub open spec fn before(j: int, i: int, bj: int, bi: int) -> bool {
    j < bj || (j == bj && i < bi)
}

/// The door tiles of the shop: walls to look at, but walkable.
pub open spec fn door_cells() -> Set<Node> {
    set![Node { x: 0i32, y: -5i32 }, Node { x: 0i32, y: -6i32 }]
}

/// Walkable cells among those before (`bj`, `bi`) in reading order.
pub open spec fn walkable_before(t: Seq<char>, bj: int, bi: int) -> Set<Node> {
    Set::new(
        |n: Node|
            exists|j: int, i: int|
                #![trigger walkable_at(t, j, i)]
                walkable_at(t, j, i) && before(j, i, bj, bi) && n == cell_at(j, i),
    )
}

/// The cells on which shoppers can walk: every walkable token of the map
/// and the two door tiles.
pub open spec fn map_walkable(t: Seq<char>) -> Set<Node> {
    Set::new(
        |n: Node|
            exists|j: int, i: int|
                #![trigger walkable_at(t, j, i)]
                walkable_at(t, j, i) && n == cell_at(j, i),
    ).union(door_cells())
}

/// The walkable cells of a map of under 2^24 characters lie in the box.
proof fn lemma_map_walkable_bounded(t: Seq<char>)
    requires
        t.len() < 16777216,
    ensures
        crate::pathfinding::bounded(map_walkable(t)),
{
    crate::text::lemma_pieces_bounds(t, '\n');
    assert forall|n: Node| #[trigger] map_walkable(t).contains(n) implies crate::pathfinding::in_box(n) by {
        if !door_cells().contains(n) {
            let (j, i) = choose|j: int, i: int| #[trigger] walkable_at(t, j, i) && n == cell_at(j, i);
            crate::text::lemma_words_bounds(map_rows(t)[j]);
            assert(map_rows(t)[j].len() <= t.len());
        }
    }
}

/// The walkable cells of a map text (for NPC path finding). Maps whose
/// text exceeds 2^24 characters are left out: there the game's
/// floating-point world coordinates are no longer whole numbers.
pub fn load_walkable_cells(map_text: &str) -> (r: Walkable)
    requires
        map_text@.len() < 16777216,
    ensures
        r@ == map_walkable(map_text@),
        crate::pathfinding::bounded(r@),
{
    proof {
        lemma_map_walkable_bounded(map_text@);
    }
    let ghost t = map_text@;
    let cs = chars_of(map_text);
    let rows = split_pieces(&cs, '\n');
    proof {
        crate::text::lemma_pieces_bounds(t, '\n');
        assert(t.len() == cs@.len());
    }
    let mut cells = Walkable::new();
    let mut j: usize = 0;
    proof {
        assert(cells@ =~= walkable_before(t, 0, 0));
    }
    while j < rows.len()
        invariant
            t == map_text@,
            cs@ == t,
            t.len() < 16777216,
            rows@.len() == map_rows(t).len(),
            rows@.len() <= t.len() + 1,
            forall|k: int| 0 <= k < rows@.len() ==> #[trigger] rows@[k]@ == map_rows(t)[k],
            forall|k: int| 0 <= k < rows@.len() ==> #[trigger] map_rows(t)[k].len() <= t.len(),
            j <= rows@.len(),
            cells@ == walkable_before(t, j as int, 0),
        decreases rows@.len() - j,
    {
        let ws = split_words(&rows[j]);
        proof {
            crate::text::lemma_words_bounds(rows@[j as int]@);
            assert(map_rows(t)[j as int].len() <= t.len());
        }
        let mut i: usize = 0;
        while i < ws.len()
            invariant
                t == map_text@,
                t.len() < 16777216,
                j < rows@.len(),
                rows@.len() <= t.len() + 1,
                rows@.len() == map_rows(t).len(),
                rows@[j as int]@ == map_rows(t)[j as int],
                ws@.len() == words(map_rows(t)[j as int]).len(),
                ws@.len() <= t.len(),
                forall|k: int| 0 <= k < ws@.len() ==> #[trigger] ws@[k]@ == words(map_rows(t)[j as int])[k],
                i <= ws@.len(),
                cells@ == walkable_before(t, j as int, i as int),
            decreases ws@.len() - i,
        {
            let ghost before_cells = cells@;
            if is_walkable_word(&ws[i]) {
                let x: i32 = i as i32 - 21;
                let y: i32 = 14 - j as i32;
                cells.insert(Node::new(x, y));
                proof {
                    assert(ws@[i as int]@ == words(map_rows(t)[j as int])[i as int]);
                    assert(walkable_at(t, j as int, i as int));
                    assert(cell_at(j as int, i as int) == Node { x, y });
                }
            }
            proof {
                assert forall|n: Node| #[trigger] cells@.contains(n) == walkable_before(
                    t,
                    j as int,
                    i + 1,
                ).contains(n) by {
                    if walkable_before(t, j as int, i + 1).contains(n) {
                        let (jj, ii) = choose|jj: int, ii: int|
                            #![trigger walkable_at(t, jj, ii)]
                            walkable_at(t, jj, ii) && before(jj, ii, j as int, i + 1) && n == cell_at(jj, ii);
                        if before(jj, ii, j as int, i as int) {
                            assert(before_cells.contains(n));
                        }
                    }
                }
                assert(cells@ =~= walkable_before(t, j as int, i + 1));
            }
            i = i + 1;
        }
        proof {
            assert forall|n: Node| #[trigger] cells@.contains(n) == walkable_before(
                t,
                j + 1,
                0,
            ).contains(n) by {
                if walkable_before(t, j + 1, 0).contains(n) {
                    let (jj, ii) = choose|jj: int, ii: int|
                        #![trigger walkable_at(t, jj, ii)]
                        walkable_at(t, jj, ii) && before(jj, ii, j + 1, 0) && n == cell_at(jj, ii);
                    assert(before(jj, ii, j as int, i as int));
                }
                if cells@.contains(n) {
                    let (jj, ii) = choose|jj: int, ii: int|
                        #![trigger walkable_at(t, jj, ii)]
                        walkable_at(t, jj, ii) && before(jj, ii, j as int, i as int) && n == cell_at(jj, ii);
                    assert(before(jj, ii, j + 1, 0));
                }
            }
            assert(cells@ =~= walkable_before(t, j + 1, 0));
        }
        j = j + 1;
    }
    cells.insert(Node::new(0, -5));
    cells.insert(Node::new(0, -6));
    proof {
        assert forall|n: Node| #[trigger] cells@.contains(n) == map_walkable(t).contains(n) by {
            if exists|jj: int, ii: int| #![trigger walkable_at(t, jj, ii)] walkable_at(t, jj, ii) && n == cell_at(jj, ii) {
                let (jj, ii) = choose|jj: int, ii: int|
                    #![trigger walkable_at(t, jj, ii)]
                    walkable_at(t, jj, ii) && n == cell_at(jj, ii);
                assert(before(jj, ii, j as int, 0));
            }
        }
        assert(cells@ =~= map_walkable(t));
    }
    cells
}

/// Cell (`j`, `i`) holds shop floor ("0").
pub open spec fn floor_at(t: Seq<char>, j: int, i: int) -> bool {
    has_word(t, j, i) && word_at(t, j, i) == seq!['0']
}

/// `a` is a better spawn point than `b`: lower on the map, or as low and
/// nearer to the centre column.
pub open spec fn spawn_better(a: Node, b: Node) -> bool {
    a.y < b.y || (a.y == b.y && abs(a.x as int) < abs(b.x as int))
}

/// The floor cell (`j`, `i`) is the spawn point: no floor cell is better,
/// and it is better than every floor cell before it in reading order.
pub open spec fn spawn_choice(t: Seq<char>, j: int, i: int) -> bool {
    &&& floor_at(t, j, i)
    &&& forall|jj: int, ii: int|
        #[trigger] floor_at(t, jj, ii) ==> !spawn_better(cell_at(jj, ii), cell_at(j, i)) && (before(
            jj,
            ii,
            j,
            i,
        ) ==> spawn_better(cell_at(j, i), cell_at(jj, ii)))
}

/// Spawn state after the cells before (`j`, `i`) in reading order.
spec fn spawn_scan(t: Seq<char>, j: int, i: int, best: Option<Node>, bj: int, bi: int) -> bool {
    match best {
        None => forall|jj: int, ii: int| #[trigger] floor_at(t, jj, ii) ==> !before(jj, ii, j, i),
        Some(b) => {
            &&& floor_at(t, bj, bi)
            &&& before(bj, bi, j, i)
            &&& b == cell_at(bj, bi)
            &&& forall|jj: int, ii: int|
                #[trigger] floor_at(t, jj, ii) && before(jj, ii, j, i) ==> !spawn_better(
                    cell_at(jj, ii),
                    b,
                ) && (before(jj, ii, bj, bi) ==> spawn_better(b, cell_at(jj, ii)))
        },
    }
}

fn abs_i32(v: i32) -> (r: i32)
    requires
        v > i32::MIN,
    ensures
        r == abs(v as int),
{
    if v < 0 {
        -v
    } else {
        v
    }
}

/// Where shoppers appear: the lowest shop-floor cell ("0") of the map,
/// among those the one nearest to the centre column, the first in reading
/// order on a tie; (0, -4) when the map has no floor. The map text must
/// be shorter than `i32::MAX` characters, so that every cell's
/// coordinates fit an `i32`.
pub fn shopper_spawn_point(map_text: &str) -> (r: Node)
    requires
        map_text@.len() < 2147483647,
    ensures
        (exists|j: int, i: int| #[trigger] floor_at(map_text@, j, i)) ==> (exists|j: int, i: int|
            #[trigger] spawn_choice(map_text@, j, i) && r == cell_at(j, i)),
        !(exists|j: int, i: int| #[trigger] floor_at(map_text@, j, i)) ==> (r.x == 0 && r.y == -4),
{
    let ghost t = map_text@;
    let cs = chars_of(map_text);
    let rows = split_pieces(&cs, '\n');
    proof {
        crate::text::lemma_pieces_bounds(t, '\n');
    }
    let mut best: Option<Node> = None;
    let ghost mut bj: int = 0;
    let ghost mut bi: int = 0;
    let mut j: usize = 0;
    while j < rows.len()
        invariant
            t == map_text@,
            t.len() < 2147483647,
            rows@.len() == map_rows(t).len(),
            rows@.len() <= t.len() + 1,
            forall|k: int| 0 <= k < rows@.len() ==> #[trigger] rows@[k]@ == map_rows(t)[k],
            forall|k: int| 0 <= k < rows@.len() ==> #[trigger] map_rows(t)[k].len() <= t.len(),
            j <= rows@.len(),
            spawn_scan(t, j as int, 0, best, bj, bi),
        decreases rows@.len() - j,
    {
        let ws = split_words(&rows[j]);
        proof {
            crate::text::lemma_words_bounds(rows@[j as int]@);
        }
        let mut i: usize = 0;
        while i < ws.len()
            invariant
                t == map_text@,
                t.len() < 2147483647,
                j < rows@.len(),
                rows@.len() <= t.len() + 1,
                rows@.len() == map_rows(t).len(),
                rows@[j as int]@ == map_rows(t)[j as int],
                ws@.len() == words(map_rows(t)[j as int]).len(),
                ws@.len() <= t.len(),
                forall|k: int| 0 <= k < ws@.len() ==> #[trigger] ws@[k]@ == words(map_rows(t)[j as int])[k],
                i <= ws@.len(),
                spawn_scan(t, j as int, i as int, best, bj, bi),
            decreases ws@.len() - i,
        {
            let w = &ws[i];
            proof {
                assert(ws@[i as int]@ == words(map_rows(t)[j as int])[i as int]);
            }
            if w.len() == 1 && w[0] == '0' {
                let node = Node::new(i as i32 - 21, 14 - j as i32);
                proof {
                    assert(w@ =~= seq!['0']);
                    assert(floor_at(t, j as int, i as int));
                    assert(node == cell_at(j as int, i as int));
                }
                let better = match best {
                    None => true,
                    Some(cur) => node.y < cur.y || (node.y == cur.y && abs_i32(node.x) < abs_i32(
                        cur.x,
                    )),
                };
                if better {
                    best = Some(node);
                    proof {
                        bj = j as int;
                        bi = i as int;
                    }
                }
            } else {
                proof {
                    if floor_at(t, j as int, i as int) {
                        assert(w@ =~= seq!['0']);
                    }
                }
            }
            i = i + 1;
        }
        j = j + 1;
    }
    match best {
        Some(b) => {
            proof {
                assert forall|jj: int, ii: int| #[trigger] floor_at(t, jj, ii) implies !spawn_better(
                    cell_at(jj, ii),
                    cell_at(bj, bi),
                ) && (before(jj, ii, bj, bi) ==> spawn_better(cell_at(bj, bi), cell_at(jj, ii))) by {
                    assert(before(jj, ii, j as int, 0));
                }
                assert(spawn_choice(t, bj, bi));
            }
            b
        },
        None => Node::new(0, -4),
    }
}

} // verus!
