use cys::catalog::make_slot;
use cys::level::{switch_level, LevelCache, LevelState, SavedObject};
use cys::pathfinding::Node;
use cys::shop::{add, group_sprite_frames, Balance, FoodStorage, Money, Shop};

fn balance() -> Balance {
    Balance {
        prices: Vec::new(),
        max_food_box: 10,
        max_food_rack: 8,
        max_food_candies: 6,
        candies_start_food: 3,
        money_at_cassa: 12,
        money_at_candy: 4,
        spawn_x: 0,
        spawn_y: 0,
        box_tex_threshold_1: 3,
        box_tex_threshold_2: 7,
    }
}

fn saved(name: &str, x: i32, y: i32, food: i32, max: i32, carpet: bool) -> SavedObject {
    SavedObject { slot_name: name.to_string(), x, y, food_count: food, max_food: max, is_carpet: carpet }
}

#[test]
fn snapshot_of_placed_objects() {
    let b = balance();
    let mut s = Shop::new();
    for (x, y) in [(0, 0), (0, 1), (1, 0)] {
        s.floor_positions.insert(Node::new(x, y));
    }
    s.money = Money(1000);
    assert!(add(&mut s, &vec![make_slot("rack")], 0, 0, 0, &b).is_some());
    assert!(add(&mut s, &vec![make_slot("blue_carpet")], 0, 1, 0, &b).is_some());
    s.objects[0].food = Some(FoodStorage { food_count: 4, max_food: 8 });
    let snap = s.save_objects();
    assert_eq!(snap.len(), 2);
    assert_eq!(
        (snap[0].slot_name.as_str(), snap[0].x, snap[0].y, snap[0].food_count, snap[0].max_food, snap[0].is_carpet),
        ("rack", 0, 0, 4, 8, false)
    );
    assert_eq!(
        (snap[1].slot_name.as_str(), snap[1].x, snap[1].y, snap[1].food_count, snap[1].max_food, snap[1].is_carpet),
        ("blue_carpet", 1, 0, 0, 0, true)
    );
}

#[test]
fn restoring_rebuilds_objects() {
    let mut s = Shop::new();
    let snap = vec![
        saved("box", 2, 3, 7, 10, false),
        saved("fence", 5, 5, 0, 0, false),
        saved("basement", -1, -1, 0, 0, false),
        saved("red_carpet", 0, 0, 0, 0, true),
    ];
    s.restore_objects(&snap);
    assert_eq!(s.objects.len(), 4);
    assert_eq!(s.next_group_id, 5);
    assert_eq!(s.objects[0].info.group_id, 1);
    assert_eq!((s.objects[0].info.pos_x, s.objects[0].info.pos_y), (2, 3));
    assert_eq!(s.objects[0].food, Some(FoodStorage { food_count: 7, max_food: 10 }));
    assert_eq!(s.objects[0].texture, "tex/decor/regular/box/box_0.png");
    assert_eq!(s.objects[1].fence.as_ref().map(|f| f.name.as_str()), Some("fence"));
    assert!(s.objects[1].food.is_none());
    assert!(s.basement_placed.0);
    assert_eq!(s.objects[2].info.height, 2);
    assert!(s.objects[3].info.is_carpet);
    // Saving again gives back the snapshot.
    let again = s.save_objects();
    for (a, b) in again.iter().zip(snap.iter()) {
        assert_eq!(
            (a.slot_name.as_str(), a.x, a.y, a.food_count, a.max_food, a.is_carpet),
            (b.slot_name.as_str(), b.x, b.y, b.food_count, b.max_food, b.is_carpet)
        );
    }
}

#[test]
fn basement_exit_stands_at_its_place() {
    let mut s = Shop::new();
    let id = s.place_basement_exit();
    assert_eq!(id, 1);
    assert!(s.basement_placed.0);
    let g = s.objects[0].info;
    assert_eq!((g.pos_x, g.pos_y, g.width, g.height), (-6, 3, 1, 2));
    assert_eq!(s.objects[0].tag.name, "basement");
    assert_eq!(s.find_group_at_position(-6, 4), Some(1));
}

#[test]
fn sprite_frames_wrap_round_the_atlas() {
    let f = group_sprite_frames(2, 2, [0, 1], [2, 2]);
    assert_eq!(f, vec![(0, 0, [0, 1]), (0, 1, [0, 0]), (1, 0, [1, 1]), (1, 1, [1, 0])]);
    let g = group_sprite_frames(1, 2, [-3, 0], [2, 2]);
    assert_eq!(g, vec![(0, 0, [-1, 0]), (0, 1, [-1, 1])]);
    assert!(group_sprite_frames(0, 3, [0, 0], [1, 1]).is_empty());
}

#[test]
fn stretched_objects_anchor_at_their_centre() {
    let mut s = Shop::new();
    s.money = Money(1000);
    for y in 0..2 {
        s.floor_positions.insert(Node::new(0, y));
    }
    // A light two cells high with a single frame is drawn stretched.
    let mut slot = make_slot("lamp");
    slot.obj.height = 2;
    assert!(add(&mut s, &vec![slot], 0, 0, 0, &balance()).is_some());
    assert!(s.objects[0].info.spanning);
    let a = cys::shop::anchor_cell(&s.objects[0].info);
    assert_eq!((a.x, a.y), (0, 0));
    let mut t = Shop::new();
    t.money = Money(1000);
    for y in -3..-1 {
        t.floor_positions.insert(Node::new(-3, y));
    }
    assert!(add(&mut t, &vec![slot], 0, -3, -3, &balance()).is_some());
    let a = cys::shop::anchor_cell(&t.objects[0].info);
    assert_eq!((a.x, a.y), (-3, -2));
}

fn grid_of(s: &Shop) -> Vec<Vec<&str>> {
    s.map_grid.iter().map(|r| r.iter().map(|t| t.as_str()).collect()).collect()
}

#[test]
fn switching_levels_keeps_the_level_left() {
    let mut s = Shop::new();
    s.load_map("= 0 .\n& / @\n");
    s.restore_objects(&vec![saved("box", 2, 3, 7, 10, false)]);
    s.money = Money(50);
    s.busy_cassas.0.insert(Node::new(1, 1));
    let mut cache = LevelCache::new();
    assert!(cache.get(0).is_none());
    // Down to the basement, never visited: nothing to rebuild.
    assert!(!switch_level(&mut s, &mut cache, -1, false));
    assert_eq!(s.current_level, -1);
    assert!(s.objects.is_empty());
    assert!(s.map_grid.is_empty());
    assert_eq!(s.next_group_id, 1);
    assert!(!s.busy_cassas.0.contains(Node::new(1, 1)));
    assert!(!s.wall_positions.contains(Node::new(-21, 14)));
    assert_eq!(s.money.0, 50);
    let kept = cache.get(0).expect("the shop level is kept");
    assert_eq!(kept.objects.len(), 1);
    assert_eq!(kept.map_grid.len(), 2);
    // The basement is built from its map, then the player goes back up.
    s.load_map(". .\n");
    assert!(switch_level(&mut s, &mut cache, 0, false));
    assert_eq!(s.current_level, 0);
    assert_eq!(grid_of(&s), vec![vec!["=", "0", "."], vec!["&", "/", "@"]]);
    assert!(s.wall_positions.contains(Node::new(-21, 14)));
    assert!(s.floor_positions.contains(Node::new(-20, 14)));
    assert!(s.outdoor_positions.contains(Node::new(-19, 14)));
    assert!(s.floor_placeable_positions.contains(Node::new(-20, 13)));
    assert_eq!(s.original_tokens.get(Node::new(-20, 14)), Some("0".to_string()));
    assert_eq!(s.objects.len(), 1);
    assert_eq!(s.objects[0].info.group_id, 1);
    assert_eq!((s.objects[0].info.pos_x, s.objects[0].info.pos_y), (2, 3));
    assert_eq!(s.objects[0].food, Some(FoodStorage { food_count: 7, max_food: 10 }));
    assert_eq!(s.next_group_id, 2);
    assert_eq!(cache.get(-1).map(|st| st.map_grid.len()), Some(1));
}

#[test]
fn switching_without_saving_leaves_the_cache() {
    let mut s = Shop::new();
    s.load_map("0\n");
    let mut cache = LevelCache::new();
    assert!(!switch_level(&mut s, &mut cache, -1, true));
    assert!(cache.get(0).is_none());
    assert!(s.map_grid.is_empty());
}

#[test]
fn level_state_with_token_off_the_grid_cannot_be_rebuilt() {
    let good = LevelState {
        map_grid: vec![vec!["0".to_string()]],
        original_tokens: vec![(Node::new(-21, 14), "0".to_string())],
        objects: Vec::new(),
    };
    assert!(good.is_restorable());
    let bad = LevelState {
        map_grid: vec![vec!["0".to_string()]],
        original_tokens: vec![(Node::new(-20, 14), "0".to_string())],
        objects: Vec::new(),
    };
    assert!(!bad.is_restorable());
}
