use cys::grid::remove;
use cys::pathfinding::Node;
use cys::shop::{Balance, Shop};

fn balance() -> Balance {
    Balance {
        prices: Vec::new(),
        max_food_box: 10,
        max_food_rack: 8,
        max_food_candies: 6,
        candies_start_food: 3,
        money_at_cassa: 12,
        money_at_candy: 4,
        spawn_x: 0,
        spawn_y: 0,
        box_tex_threshold_1: 3,
        box_tex_threshold_2: 7,
    }
}

fn grid_of(s: &Shop) -> Vec<Vec<&str>> {
    s.map_grid.iter().map(|r| r.iter().map(|t| t.as_str()).collect()).collect()
}

#[test]
fn load_map_builds_grid_and_sets() {
    let mut s = Shop::new();
    s.load_map("= 0 .\n\n& / @\n");
    assert_eq!(grid_of(&s), vec![vec!["=", "0", "."], vec!["&", "/", "@"]]);
    // Row 0 is y = 14, column 0 is x = -21; the empty line still counts.
    assert!(s.wall_positions.contains(Node::new(-21, 14)));
    assert!(s.floor_positions.contains(Node::new(-20, 14)));
    assert!(s.outdoor_positions.contains(Node::new(-19, 14)));
    assert!(s.flower_positions.contains(Node::new(-19, 12)));
    assert!(s.floor_placeable_positions.contains(Node::new(-19, 14)));
    assert!(s.floor_placeable_positions.contains(Node::new(-20, 12)));
    // The grid's row 1 (index 2 - 1 of the file) is the second non-empty
    // row, so the "&" is not read as the bottom of a wall block.
    assert!(s.floor_placeable_positions.contains(Node::new(-21, 12)));
    assert_eq!(s.original_tokens.get(Node::new(-20, 14)), Some("0".to_string()));
    assert_eq!(s.original_tokens.get(Node::new(-20, 13)), None);
}

#[test]
fn wall_below_floor_is_a_bottom() {
    let mut s = Shop::new();
    s.load_map("0 0\n& .\n");
    assert!(!s.floor_placeable_positions.contains(Node::new(-21, 13)));
}

#[test]
fn removing_built_floor_brings_grass_back() {
    let mut s = Shop::new();
    s.load_map(". . .\n. . .\n. . .\n");
    // Floor built in the centre with a wall grown below it.
    let centre = Node::new(-20, 13);
    s.map_grid[1][1] = "0".to_string();
    s.floor_positions.insert(centre);
    s.floor_placed_positions.insert(centre);
    s.map_grid[2][1] = "&".to_string();
    assert!(remove(&mut s, -20, 13, &balance()));
    assert_eq!(grid_of(&s), vec![vec![".", ".", "."], vec![".", ".", "."], vec![".", ".", "."]]);
    assert!(!s.floor_positions.contains(centre));
    assert!(!s.floor_placed_positions.contains(centre));
    assert!(s.outdoor_positions.contains(centre));
    assert!(s.flower_positions.contains(Node::new(-20, 12)));
}

#[test]
fn removing_grass_does_nothing() {
    let mut s = Shop::new();
    s.load_map(". .\n");
    assert!(!remove(&mut s, -21, 14, &balance()));
    assert!(!remove(&mut s, 40, 40, &balance()));
    assert_eq!(grid_of(&s), vec![vec![".", "."]]);
}

#[test]
fn walls_follow_the_floor() {
    let mut s = Shop::new();
    s.load_map(". . .\n. . .\n. . .\n");
    // A wall at the centre with floor to its east.
    s.map_grid[1][1] = "=".to_string();
    s.floor_positions.insert(Node::new(-19, 13));
    s.map_grid[1][2] = "0".to_string();
    s.refresh_walls_around(-20, 12);
    assert_eq!(s.map_grid[1][1], "/");
    assert!(s.floor_placeable_positions.contains(Node::new(-20, 13)));
}

#[test]
fn reverting_a_cell_restores_its_token() {
    let mut s = Shop::new();
    s.load_map("& 0\n");
    s.map_grid[0][0] = "/".to_string();
    s.revert_to_grass(Node::new(-21, 14), 0, 0);
    assert_eq!(s.map_grid[0][0], "&");
    assert!(s.floor_placeable_positions.contains(Node::new(-21, 14)));
}

#[test]
fn cell_set_lists_each_cell_once() {
    let mut set = cys::cells::CellSet::new();
    set.insert(Node::new(-3, 7));
    set.insert(Node::new(2147483647, -2147483648));
    set.insert(Node::new(-3, 7));
    set.insert(Node::new(0, 0));
    set.remove(Node::new(0, 0));
    let mut cells: Vec<(i32, i32)> = set.cells().iter().map(|n| (n.x, n.y)).collect();
    cells.sort();
    assert_eq!(cells, vec![(-3, 7), (2147483647, -2147483648)]);
}
