use cys::config::{debug_flags, env_flag};
use cys::map::{is_grass_token, load_walkable_cells, shopper_spawn_point, token_to_texture, wall_frame_count};
use cys::pathfinding::{Node, Walkable};
use cys::text::{append, contains_str, load_string, normalize_text, str_eq};

fn line_of_cells(n: i32) -> Walkable {
    let mut w = Walkable::new();
    for x in 0..n {
        w.insert(Node::new(x, 0));
    }
    w
}

#[test]
fn node_new_keeps_coordinates() {
    let n = Node::new(3, -4);
    assert_eq!(n.x, 3);
    assert_eq!(n.y, -4);
}

#[test]
fn manhattan_distance_of_two_cells() {
    assert_eq!(Node::new(1, 2).manhattan(Node::new(-2, 6)), 7);
}

#[test]
fn neighbors_in_order_right_left_up_down() {
    let r = Node::new(0, 0).neighbors();
    assert_eq!(r, [Node::new(1, 0), Node::new(-1, 0), Node::new(0, 1), Node::new(0, -1)]);
}

#[test]
fn find_path_along_a_line() {
    let w = line_of_cells(5);
    let p = w.find_path(Node::new(0, 0), Node::new(4, 0)).unwrap();
    assert_eq!(p, vec![Node::new(0, 0), Node::new(1, 0), Node::new(2, 0), Node::new(3, 0), Node::new(4, 0)]);
}

#[test]
fn find_path_is_shortest_around_a_wall() {
    // A 3 x 3 block with the centre missing: from one corner to the
    // opposite one takes four steps.
    let mut w = Walkable::new();
    for x in 0..3 {
        for y in 0..3 {
            if !(x == 1 && y == 1) {
                w.insert(Node::new(x, y));
            }
        }
    }
    let p = w.find_path(Node::new(0, 0), Node::new(2, 2)).unwrap();
    assert_eq!(p.len(), 5);
    assert_eq!(p[0], Node::new(0, 0));
    assert_eq!(p[4], Node::new(2, 2));
    for k in 0..4 {
        let d = (p[k].x - p[k + 1].x).abs() + (p[k].y - p[k + 1].y).abs();
        assert_eq!(d, 1);
    }
}

#[test]
fn find_path_same_cell() {
    let w = line_of_cells(2);
    assert_eq!(w.find_path(Node::new(1, 0), Node::new(1, 0)), Some(vec![Node::new(1, 0)]));
}

#[test]
fn find_path_none_when_unreachable_or_blocked() {
    let mut w = line_of_cells(2);
    w.insert(Node::new(5, 0));
    assert_eq!(w.find_path(Node::new(0, 0), Node::new(5, 0)), None);
    assert_eq!(w.find_path(Node::new(0, 0), Node::new(9, 9)), None);
    assert_eq!(w.find_path(Node::new(9, 9), Node::new(0, 0)), None);
}

#[test]
fn route_refuses_far_goals() {
    let w = line_of_cells(3);
    assert_eq!(w.route(Node::new(0, 0), Node::new(i32::MAX, 0)), None);
    assert_eq!(w.route(Node::new(0, 0), Node::new(2, 0)).map(|p| p.len()), Some(3));
}

#[test]
fn walkable_insert_contains() {
    let mut w = Walkable::new();
    assert!(!w.contains(Node::new(1, 1)));
    w.insert(Node::new(1, 1));
    assert!(w.contains(Node::new(1, 1)));
    assert!(!w.contains(Node::new(1, 2)));
}

#[test]
fn walkable_cells_of_a_small_map() {
    // Row 0 is y = 14, column 0 is x = -21; the two door cells are always
    // walkable.
    let w = load_walkable_cells("0 = .\n@ ! ^\n");
    assert!(w.contains(Node::new(-21, 14)));
    assert!(!w.contains(Node::new(-20, 14)));
    assert!(w.contains(Node::new(-19, 14)));
    assert!(w.contains(Node::new(-21, 13)));
    assert!(w.contains(Node::new(-20, 13)));
    assert!(!w.contains(Node::new(-19, 13)));
    assert!(w.contains(Node::new(0, -5)));
    assert!(w.contains(Node::new(0, -6)));
}

#[test]
fn spawn_point_is_lowest_central_floor() {
    let p = shopper_spawn_point("0 0 0\n. 0 0 0\n");
    assert_eq!(p, Node::new(-18, 13));
}

#[test]
fn token_textures() {
    assert_eq!(token_to_texture("0"), ("tex/map/floor.png", [0, 0], [2, 2]));
    assert_eq!(token_to_texture("@"), ("tex/map/grass.png", [0, 2], [4, 4]));
    assert_eq!(token_to_texture("&"), ("tex/map/wall.png", [1, 1], [5, 5]));
    assert_eq!(token_to_texture("zz"), ("tex/map/floor.png", [0, 0], [2, 2]));
    assert_eq!(wall_frame_count("}"), ([1, 4], [5, 5]));
    assert_eq!(wall_frame_count("0"), ([0, 0], [5, 5]));
}

#[test]
fn grass_tokens() {
    assert!(is_grass_token("."));
    assert!(is_grass_token("6"));
    assert!(!is_grass_token("0"));
    assert!(!is_grass_token(".."));
}

#[test]
fn normalize_text_strips_line_breaks() {
    assert_eq!(normalize_text("ab\r\ncd"), ("abcd".to_string(), true));
    assert_eq!(normalize_text("plain"), ("plain".to_string(), false));
    assert_eq!(normalize_text(""), (String::new(), false));
}

#[test]
fn load_string_decodes_and_replaces() {
    assert_eq!(load_string(b"map 0 ."), "map 0 .");
    assert_eq!(load_string(&[0x61, 0xff, 0x62]), "a\u{FFFD}b");
    assert_eq!(load_string("Мир".as_bytes()), "Мир");
}

#[test]
fn string_helpers() {
    assert!(contains_str("tex/arcade_machine/a.png", "arcade_machine"));
    assert!(!contains_str("tex/box.png", "arcade_machine"));
    assert!(contains_str("abc", ""));
    assert!(str_eq("box", "box"));
    assert!(!str_eq("box", "bo"));
    let mut s = String::from("fence");
    append(&mut s, "_1");
    assert_eq!(s, "fence_1");
}

#[test]
fn debug_flags_from_variables() {
    let f = debug_flags(Some("1"), Some("0"), None);
    assert!(f.show_fps);
    assert!(!f.show_bounds);
    assert!(!f.show_pathfinding);
    assert!(env_flag(Some("1")));
    assert!(!env_flag(Some("11")));
    assert!(!env_flag(Some("true")));
    assert!(!env_flag(None));
}

#[test]
fn routes_are_as_long_both_ways_and_more_cells_never_lengthen_them() {
    let mut w = Walkable::new();
    for x in 0..3 {
        for y in 0..3 {
            if !(x == 1 && y == 1) && !(x == 1 && y == 0) {
                w.insert(Node::new(x, y));
            }
        }
    }
    let there = w.find_path(Node::new(0, 0), Node::new(2, 0)).unwrap();
    let back = w.find_path(Node::new(2, 0), Node::new(0, 0)).unwrap();
    assert_eq!(there.len(), 7);
    assert_eq!(back.len(), 7);
    w.insert(Node::new(1, 0));
    let shorter = w.find_path(Node::new(0, 0), Node::new(2, 0)).unwrap();
    assert_eq!(shorter.len(), 3);
}
