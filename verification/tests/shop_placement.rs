use cys::catalog::make_slot;
use cys::grid::remove;
use cys::pathfinding::Node;
use cys::shop::{
    add, cycle_mode, food_texture, try_interact, Balance, FoodStorage, Money, Shop, TotalFood,
};

fn balance() -> Balance {
    Balance {
        prices: Vec::new(),
        max_food_box: 10,
        max_food_rack: 8,
        max_food_candies: 6,
        candies_start_food: 3,
        money_at_cassa: 12,
        money_at_candy: 4,
        spawn_x: 0,
        spawn_y: 0,
        box_tex_threshold_1: 3,
        box_tex_threshold_2: 7,
    }
}

fn shop_with_floor(cells: &[(i32, i32)], money: i32) -> Shop {
    let mut s = Shop::new();
    for &(x, y) in cells {
        s.floor_positions.insert(Node::new(x, y));
    }
    s.money = Money(money);
    s
}

#[test]
fn add_pays_and_places() {
    let mut s = shop_with_floor(&[(0, 0)], 100);
    let slots = vec![make_slot("box")];
    let r = add(&mut s, &slots, 0, 0, 0, &balance());
    assert_eq!(r, Some(1));
    assert_eq!(s.money.0, 70);
    assert_eq!(s.next_group_id, 2);
    assert_eq!(s.objects.len(), 1);
    assert_eq!(s.objects[0].tag.name, "box");
    assert_eq!(s.objects[0].food, Some(FoodStorage { food_count: 0, max_food: 10 }));
    assert!(s.objects[0].fence.is_none());
}

#[test]
fn add_refusals_leave_the_shop_alone() {
    let b = balance();
    // No floor under the object.
    let mut s = shop_with_floor(&[], 100);
    assert_eq!(add(&mut s, &vec![make_slot("box")], 0, 0, 0, &b), None);
    // Not enough money.
    let mut s = shop_with_floor(&[(0, 0)], 29);
    assert_eq!(add(&mut s, &vec![make_slot("box")], 0, 0, 0, &b), None);
    assert_eq!(s.money.0, 29);
    // No cash desk in the basement.
    let mut s = shop_with_floor(&[(0, 0), (1, 0), (0, 1), (1, 1)], 100);
    s.current_level = -1;
    assert_eq!(add(&mut s, &vec![make_slot("cassa")], 0, 0, 0, &b), None);
    assert!(s.objects.is_empty());
    // The same spot is taken.
    let mut s = shop_with_floor(&[(0, 0)], 100);
    let slots = vec![make_slot("box")];
    assert!(add(&mut s, &slots, 0, 0, 0, &b).is_some());
    assert_eq!(add(&mut s, &slots, 0, 0, 0, &b), None);
    assert_eq!(s.money.0, 70);
}

#[test]
fn only_one_basement() {
    let b = balance();
    let mut s = shop_with_floor(&[(0, 0), (0, 1), (1, 0), (1, 1)], 1000);
    let slots = vec![make_slot("basement")];
    assert!(add(&mut s, &slots, 0, 0, 0, &b).is_some());
    assert!(s.basement_placed.0);
    assert_eq!(add(&mut s, &slots, 0, 1, 0, &b), None);
    // Removing it allows another and refunds half its price.
    let before = s.money.0;
    assert!(remove(&mut s, 0, 0, &b));
    assert!(!s.basement_placed.0);
    assert_eq!(s.money.0, before + make_slot("basement").obj.price / 2);
    assert!(add(&mut s, &slots, 0, 1, 0, &b).is_some());
}

#[test]
fn carpets_lie_under_furniture() {
    let b = balance();
    let mut s = shop_with_floor(&[(0, 0)], 1000);
    let carpet = vec![make_slot("red_carpet")];
    let table = vec![make_slot("box")];
    assert!(add(&mut s, &carpet, 0, 0, 0, &b).is_some());
    assert!(s.can_place_at(0, 0, 1, 1, false, false, false, false, false));
    assert!(!s.can_place_at(0, 0, 1, 1, true, false, false, false, false));
    assert!(s.can_place_at(0, 0, 1, 1, false, true, false, false, false));
    assert!(add(&mut s, &table, 0, 0, 0, &b).is_some());
    // The box is picked before the carpet.
    assert_eq!(s.find_group_at_position(0, 0), Some(2));
    assert!(remove(&mut s, 0, 0, &b));
    assert_eq!(s.find_group_at_position(0, 0), Some(1));
    assert!(remove(&mut s, 0, 0, &b));
    assert_eq!(s.find_group_at_position(0, 0), None);
}

#[test]
fn can_place_checks_every_cell() {
    let s = shop_with_floor(&[(0, 0), (1, 0), (0, 1)], 0);
    assert!(s.can_place_at(0, 0, 2, 1, false, false, false, false, false));
    assert!(!s.can_place_at(0, 0, 2, 2, false, false, false, false, false));
    // Nothing to check for an empty footprint.
    assert!(s.can_place_at(50, 50, 0, 3, false, false, false, false, false));
    // Flowers need flower beds.
    assert!(!s.can_place_at(0, 0, 1, 1, false, false, false, false, true));
}

#[test]
fn refund_rounds_toward_zero() {
    let mut b = balance();
    b.prices = vec![("sign".to_string(), 5)];
    let mut s = shop_with_floor(&[(0, 0)], 100);
    assert!(add(&mut s, &vec![make_slot("sign")], 0, 0, 0, &b).is_some());
    assert_eq!(s.money.0, 95);
    assert!(remove(&mut s, 0, 0, &b));
    assert_eq!(s.money.0, 97);
}

#[test]
fn rack_and_candies_start_with_their_stores() {
    let b = balance();
    let mut s = shop_with_floor(&[(0, 0), (0, 1), (1, 0), (1, 1)], 1000);
    assert!(add(&mut s, &vec![make_slot("rack")], 0, 0, 0, &b).is_some());
    assert!(add(&mut s, &vec![make_slot("candies")], 0, 1, 0, &b).is_some());
    assert_eq!(s.objects[0].food, Some(FoodStorage { food_count: 0, max_food: 8 }));
    assert_eq!(s.objects[1].food, Some(FoodStorage { food_count: 3, max_food: 6 }));
}

#[test]
fn look_mode_clicks() {
    let b = balance();
    let mut s = shop_with_floor(&[(0, 0), (0, 1), (1, 0), (1, 1), (2, 0), (2, 1)], 1000);
    assert!(add(&mut s, &vec![make_slot("box")], 0, 0, 0, &b).is_some());
    assert!(add(&mut s, &vec![make_slot("rack")], 0, 1, 0, &b).is_some());
    assert!(add(&mut s, &vec![make_slot("arcade_machine")], 0, 2, 0, &b).is_some());
    s.objects[0].food = Some(FoodStorage { food_count: 5, max_food: 10 });
    // The box sells its food into the stock.
    assert_eq!(try_interact(&mut s, 0, 0), 0);
    assert_eq!(s.total_food.0, 5);
    assert_eq!(s.objects[0].food, Some(FoodStorage { food_count: 0, max_food: 10 }));
    // The rack takes what the stock has, up to what it lacks.
    assert_eq!(try_interact(&mut s, 1, 1), 0);
    assert_eq!(s.total_food.0, 0);
    assert_eq!(s.objects[1].food, Some(FoodStorage { food_count: 5, max_food: 8 }));
    assert_eq!(s.pending_food_adds, vec![2]);
    s.total_food = TotalFood(10);
    try_interact(&mut s, 1, 0);
    assert_eq!(s.total_food.0, 7);
    assert_eq!(s.objects[1].food, Some(FoodStorage { food_count: 8, max_food: 8 }));
    // The arcade machine lights up; an empty cell does nothing.
    assert_eq!(try_interact(&mut s, 2, 0), 1);
    assert_eq!(try_interact(&mut s, 9, 9), 0);
}

#[test]
fn basement_click_switches_level() {
    let b = balance();
    let mut s = shop_with_floor(&[(0, 0), (0, 1)], 1000);
    assert!(add(&mut s, &vec![make_slot("basement")], 0, 0, 0, &b).is_some());
    assert_eq!(try_interact(&mut s, 0, 0), 2);
}

#[test]
fn fill_textures() {
    let b = balance();
    let f = |c| FoodStorage { food_count: c, max_food: 10 };
    assert_eq!(food_texture("box", f(2), &b), Some("tex/decor/regular/box/box_0.png"));
    assert_eq!(food_texture("box", f(3), &b), Some("tex/decor/regular/box/box_1.png"));
    assert_eq!(food_texture("box", f(7), &b), Some("tex/decor/regular/box/box_2.png"));
    assert_eq!(food_texture("rack", f(0), &b), Some("tex/decor/regular/rack/rack_0.png"));
    assert_eq!(food_texture("rack", f(1), &b), Some("tex/decor/regular/rack/rack_1.png"));
    assert_eq!(food_texture("candies", f(1), &b), None);
}

#[test]
fn object_texture_updates_in_order() {
    let b = balance();
    let mut s = shop_with_floor(&[(0, 0), (1, 0), (1, 1), (2, 0)], 1000);
    assert!(add(&mut s, &vec![make_slot("box")], 0, 0, 0, &b).is_some());
    assert!(add(&mut s, &vec![make_slot("rack")], 0, 1, 0, &b).is_some());
    assert!(add(&mut s, &vec![make_slot("sign")], 0, 2, 0, &b).is_some());
    s.objects[0].food = Some(FoodStorage { food_count: 9, max_food: 10 });
    let u = s.update_object_textures(&b);
    assert_eq!(
        u,
        vec![(1, "tex/decor/regular/box/box_2.png"), (2, "tex/decor/regular/rack/rack_0.png")]
    );
}

#[test]
fn fence_textures_follow_neighbours() {
    let b = balance();
    let mut s = Shop::new();
    s.money = Money(1000);
    for x in 0..3 {
        s.outdoor_positions.insert(Node::new(x, 0));
    }
    s.floor_positions.insert(Node::new(5, 5));
    let street = vec![make_slot("street_fence")];
    assert!(add(&mut s, &street, 0, 0, 0, &b).is_some());
    assert!(add(&mut s, &street, 0, 1, 0, &b).is_some());
    assert!(add(&mut s, &vec![make_slot("fence")], 0, 5, 5, &b).is_some());
    let u = s.update_fence_textures();
    assert_eq!(u.len(), 3);
    assert_eq!(u[0].1, "tex/decor/outdoor/street_fence/street_fence_0_0_0_1.png");
    assert_eq!(u[1].1, "tex/decor/outdoor/street_fence/street_fence_0_0_1_0.png");
    assert_eq!(u[1].2, "tex/decor/outdoor/street_fence/street_fence_0_0_0_0.png");
    assert_eq!(u[2].1, "tex/decor/regular/fence/fence_0_0_0_0.png");
    assert_eq!(u[2].2, "tex/decor/regular/fence/fence_0_0_0_0.png");
}

#[test]
fn wall_shape_from_floor() {
    let mut s = Shop::new();
    assert_eq!(s.recompute_wall_token(0, 0), None);
    s.floor_positions.insert(Node::new(1, 0));
    assert_eq!(s.recompute_wall_token(0, 0), Some("/"));
    s.floor_positions.insert(Node::new(0, 1));
    assert_eq!(s.recompute_wall_token(0, 0), Some("&"));
    let mut d = Shop::new();
    d.floor_positions.insert(Node::new(-1, 1));
    assert_eq!(d.recompute_wall_token(0, 0), Some("i"));
}

#[test]
fn regeneration_and_hover() {
    let b = balance();
    let mut s = shop_with_floor(&[(0, 0), (1, 0), (1, 1)], 1000);
    assert!(add(&mut s, &vec![make_slot("box")], 0, 0, 0, &b).is_some());
    assert!(add(&mut s, &vec![make_slot("rack")], 0, 1, 0, &b).is_some());
    s.regen_food(4);
    assert_eq!(s.objects[0].food, Some(FoodStorage { food_count: 4, max_food: 10 }));
    assert_eq!(s.objects[1].food, Some(FoodStorage { food_count: 0, max_food: 8 }));
    s.objects[0].food = Some(FoodStorage { food_count: 10, max_food: 10 });
    s.regen_food(4);
    assert_eq!(s.objects[0].food, Some(FoodStorage { food_count: 10, max_food: 10 }));
    assert_eq!(s.hover_info(0, 0), Some((10, 10, "box".to_string())));
    assert_eq!(s.hover_info(5, 5), None);
}

#[test]
fn modes_cycle() {
    assert_eq!(cycle_mode(0), 1);
    assert_eq!(cycle_mode(1), 2);
    assert_eq!(cycle_mode(2), 0);
}

#[test]
fn cursor_fit_reads_the_kind_from_the_name() {
    // A rack is one cell wide and two high.
    let mut s = shop_with_floor(&[(0, 0), (0, 1)], 0);
    s.outdoor_positions.insert(Node::new(4, 4));
    s.flower_positions.insert(Node::new(4, 4));
    let rack = make_slot("rack").obj;
    let flower = make_slot("pink_flower").obj;
    assert!(s.fits(&rack, 0, 0));
    assert!(!s.fits(&rack, 0, 1));
    assert!(!s.fits(&rack, 4, 4));
    assert!(s.fits(&flower, 4, 4));
    assert!(!s.fits(&flower, 0, 0));
}

#[test]
fn clicks_follow_the_mode() {
    let b = balance();
    let mut s = shop_with_floor(&[(0, 0), (0, 1)], 1000);
    let hotbar = vec![make_slot("basement")];
    // Look mode on an empty cell: nothing happens.
    assert_eq!(cys::interact::do_interact(&mut s, 0, 0, 0, &hotbar, 0, &b), 0);
    assert!(s.objects.is_empty());
    // Build mode places the hotbar's item and pays for it.
    assert_eq!(cys::interact::do_interact(&mut s, 0, 0, 1, &hotbar, 0, &b), 0);
    assert_eq!(s.objects.len(), 1);
    assert!(s.money.0 < 1000);
    // Look mode on the staircase asks for the other level.
    assert_eq!(cys::interact::do_interact(&mut s, 0, 1, 0, &hotbar, 0, &b), 2);
    // Any other mode does nothing.
    assert_eq!(cys::interact::do_interact(&mut s, 0, 0, 7, &hotbar, 0, &b), 0);
    assert_eq!(s.objects.len(), 1);
    // Erase mode removes it again.
    assert_eq!(cys::interact::do_interact(&mut s, 0, 0, 2, &hotbar, 0, &b), 0);
    assert!(s.objects.is_empty());
    assert!(!s.basement_placed.0);
}

#[test]
fn of_two_equal_groups_the_first_listed_is_picked() {
    let b = balance();
    let mut s = Shop::new();
    s.money = Money(0);
    // Two boxes restored onto the same cell: same priority.
    s.restore_objects(&vec![
        cys::level::SavedObject { slot_name: "box".to_string(), x: 0, y: 0, food_count: 3, max_food: 10, is_carpet: false },
        cys::level::SavedObject { slot_name: "box".to_string(), x: 0, y: 0, food_count: 5, max_food: 10, is_carpet: false },
    ]);
    assert_eq!(s.find_group_at_position(0, 0), Some(1));
    assert_eq!(s.hover_info(0, 0).map(|h| h.0), Some(3));
    assert_eq!(try_interact(&mut s, 0, 0), 0);
    assert_eq!(s.total_food.0, 3);
    assert_eq!(s.objects[0].food, Some(FoodStorage { food_count: 0, max_food: 10 }));
    assert_eq!(s.objects[1].food, Some(FoodStorage { food_count: 5, max_food: 10 }));
    assert!(remove(&mut s, 0, 0, &b));
    assert_eq!(s.objects.len(), 1);
    assert_eq!(s.objects[0].info.group_id, 2);
}

#[test]
fn adding_and_deleting_a_group_leaves_the_objects() {
    let mut s = shop_with_floor(&[(0, 0)], 100);
    assert!(add(&mut s, &vec![make_slot("box")], 0, 0, 0, &balance()).is_some());
    let before: Vec<u32> = s.objects.iter().map(|p| p.info.group_id).collect();
    let id = s.add_group_object(4, 4, 1, 1, "tex/decor/regular/sign.png", [1, 1], false, false, "sign");
    assert_eq!(s.objects.len(), 2);
    s.delete_group(id);
    let after: Vec<u32> = s.objects.iter().map(|p| p.info.group_id).collect();
    assert_eq!(before, after);
}

#[test]
fn a_stretched_sprite_blocks_its_whole_footprint() {
    let mut s = shop_with_floor(&[(0, 0), (0, 1), (1, 1)], 0);
    // A light two cells high drawn as one stretched sprite.
    s.add_group_object(0, 0, 1, 2, "tex/decor/light/big_lamp.png", [1, 1], false, true, "big_lamp");
    assert!(s.objects[0].info.spanning);
    assert!(!s.can_place_at(0, 0, 1, 1, false, true, false, false, false));
    assert!(!s.can_place_at(0, 1, 1, 1, false, true, false, false, false));
    assert!(s.can_place_at(1, 1, 1, 1, false, true, false, false, false));
    // Other layers may still share its cells.
    assert!(s.can_place_at(0, 1, 1, 1, false, false, false, false, false));
}
