use cys::npc::{patrol_routes, setup_npcs, Npc};
use cys::pathfinding::{Node, Walkable};
use cys::shop::{Balance, FoodStorage, GroupInfo, ObjectTag, Placed, Shop};
use cys::shopper::{ShopperManager, ShopperNpc, ShopperState, ShopperStep, Tick};

fn balance() -> Balance {
    Balance {
        prices: Vec::new(),
        max_food_box: 10,
        max_food_rack: 8,
        max_food_candies: 6,
        candies_start_food: 3,
        money_at_cassa: 12,
        money_at_candy: 4,
        spawn_x: 0,
        spawn_y: 0,
        box_tex_threshold_1: 3,
        box_tex_threshold_2: 7,
    }
}

fn placed(id: u32, name: &str, x: i32, y: i32, food: Option<i32>) -> Placed {
    Placed {
        info: GroupInfo {
            group_id: id,
            width: 1,
            height: 1,
            pos_x: x,
            pos_y: y,
            is_carpet: false,
            is_light: false,
            spanning: false,
        },
        tag: ObjectTag { name: name.to_string() },
        texture: String::new(),
        food: food.map(|c| FoodStorage { food_count: c, max_food: 8 }),
        fence: None,
    }
}

/// A corridor y = 0 from x = 0 to x = 6; a rack at (3, -1) served from
/// (3, 0); a cash desk at (6, 0).
fn corridor() -> (Walkable, Shop) {
    let mut w = Walkable::new();
    for x in 0..7 {
        w.insert(Node::new(x, 0));
    }
    let mut s = Shop::new();
    s.objects.push(placed(1, "rack", 3, -1, Some(2)));
    s.objects.push(placed(2, "cassa", 6, 0, None));
    s.next_group_id = 3;
    (w, s)
}

fn quiet() -> Tick {
    Tick { timer_done: false, candy_roll: false, at_exit: false }
}

fn walk_to_end(sh: &mut ShopperNpc) -> Node {
    let mut here = sh.path[0];
    while let Some(n) = sh.next_waypoint() {
        here = n;
        sh.reach_waypoint();
    }
    here
}

#[test]
fn state_numbers_round_trip() {
    let (w, _) = corridor();
    let mut sh = ShopperNpc::spawn(&w, Node::new(0, 0), Node::new(3, 0), Node::new(6, 0), None).unwrap();
    assert_eq!(sh.state_int(), 1);
    for n in 1..=6 {
        sh.set_state_int(n);
        assert_eq!(sh.state_int(), n);
    }
    sh.set_state_int(42);
    assert_eq!(sh.state_int(), 1);
    assert!(sh.state == ShopperState::GoingToRack);
}

#[test]
fn spawn_needs_a_route() {
    let (w, _) = corridor();
    let sh = ShopperNpc::spawn(&w, Node::new(0, 0), Node::new(3, 0), Node::new(6, 0), None).unwrap();
    assert_eq!(sh.path.len(), 4);
    assert_eq!(sh.path_index, 1);
    assert!(!sh.path_done());
    assert!(ShopperNpc::spawn(&w, Node::new(0, 0), Node::new(3, 5), Node::new(6, 0), None).is_none());
}

#[test]
fn a_full_visit() {
    let (w, mut shop) = corridor();
    let b = balance();
    let spawn = Node::new(0, 0);
    let mut sh = ShopperNpc::spawn(&w, spawn, Node::new(3, 0), Node::new(6, 0), None).unwrap();
    assert!(sh.update_fallback(&mut shop, &w, spawn, spawn, quiet(), &b) == ShopperStep::Walk);
    let here = walk_to_end(&mut sh);
    assert_eq!(here, Node::new(3, 0));
    // At the rack: takes food, claims the desk, sets off for it.
    assert!(sh.update_fallback(&mut shop, &w, here, spawn, quiet(), &b) == ShopperStep::Idle);
    assert!(sh.food_taken);
    assert!(sh.state == ShopperState::GoingToCassa);
    assert_eq!(shop.objects[0].food, Some(FoodStorage { food_count: 1, max_food: 8 }));
    assert!(shop.busy_cassas.0.contains(Node::new(6, 0)));
    let here = walk_to_end(&mut sh);
    assert!(sh.update_fallback(&mut shop, &w, here, spawn, quiet(), &b) == ShopperStep::WaitAtCassa);
    assert!(sh.state == ShopperState::AtCassa);
    assert!(sh.update_fallback(&mut shop, &w, here, spawn, quiet(), &b) == ShopperStep::Idle);
    assert_eq!(shop.money.0, 0);
    // The wait is over: pays, frees the desk and heads out.
    let done = Tick { timer_done: true, candy_roll: false, at_exit: false };
    assert!(sh.update_fallback(&mut shop, &w, here, spawn, done, &b) == ShopperStep::Idle);
    assert_eq!(shop.money.0, 12);
    assert!(!shop.busy_cassas.0.contains(Node::new(6, 0)));
    assert!(sh.state == ShopperState::GoingToExit);
    assert!(sh.heading_out);
    let here = walk_to_end(&mut sh);
    assert_eq!(here, spawn);
    assert!(sh.update_fallback(&mut shop, &w, here, spawn, quiet(), &b) == ShopperStep::ApproachExit);
    let out = Tick { timer_done: false, candy_roll: false, at_exit: true };
    assert!(sh.update_fallback(&mut shop, &w, here, spawn, out, &b) == ShopperStep::Nothing);
    assert!(sh.despawning);
}

#[test]
fn a_busy_desk_makes_shoppers_wait() {
    let (w, mut shop) = corridor();
    let b = balance();
    let spawn = Node::new(0, 0);
    shop.busy_cassas.0.insert(Node::new(6, 0));
    let mut sh = ShopperNpc::spawn(&w, spawn, Node::new(3, 0), Node::new(6, 0), None).unwrap();
    let here = walk_to_end(&mut sh);
    assert!(sh.update_fallback(&mut shop, &w, here, spawn, quiet(), &b) == ShopperStep::Idle);
    assert!(!sh.food_taken);
    assert!(sh.state == ShopperState::GoingToRack);
    assert_eq!(shop.objects[0].food, Some(FoodStorage { food_count: 2, max_food: 8 }));
}

#[test]
fn an_empty_rack_sends_shoppers_away() {
    let (w, mut shop) = corridor();
    let b = balance();
    let spawn = Node::new(0, 0);
    shop.objects[0].food = Some(FoodStorage { food_count: 0, max_food: 8 });
    let mut sh = ShopperNpc::spawn(&w, spawn, Node::new(3, 0), Node::new(6, 0), None).unwrap();
    assert!(sh.update_fallback(&mut shop, &w, spawn, spawn, quiet(), &b) == ShopperStep::Nothing);
    assert!(sh.despawning);
}

#[test]
fn without_a_desk_shoppers_leave() {
    let (w, mut shop) = corridor();
    let b = balance();
    let spawn = Node::new(0, 0);
    shop.objects.pop();
    let mut sh = ShopperNpc::spawn(&w, spawn, Node::new(3, 0), Node::new(6, 0), None).unwrap();
    let here = Node::new(2, 0);
    assert!(sh.update_fallback(&mut shop, &w, here, spawn, quiet(), &b) == ShopperStep::Nothing);
    assert!(sh.state == ShopperState::GoingToExit);
    assert_eq!(sh.path, vec![Node::new(2, 0), Node::new(1, 0), Node::new(0, 0)]);
    assert_eq!(sh.path_index, 0);
}

#[test]
fn closing_the_shop() {
    let (w, mut shop) = corridor();
    let b = balance();
    let spawn = Node::new(0, 0);
    let mut m = ShopperManager::new();
    assert_eq!(m.spawn_shopper(&shop, &w, spawn, 0), Some(0));
    assert_eq!(m.shoppers.len(), 1);
    assert_eq!(m.index, 1);
    m.set_active(false);
    assert!(m.shoppers[0].is_exiting());
    let sh = &mut m.shoppers[0];
    assert!(sh.update_fallback(&mut shop, &w, spawn, spawn, quiet(), &b) == ShopperStep::Walk);
    assert!(sh.state == ShopperState::GoingToExit);
    m.set_active(true);
    assert!(!m.shoppers[0].is_exiting());
    m.clear();
    assert!(m.shoppers.is_empty());
    assert_eq!(m.index, 0);
}

#[test]
fn spawning_needs_rack_and_desk() {
    let (w, mut shop) = corridor();
    let spawn = Node::new(0, 0);
    let mut m = ShopperManager::new();
    // The rack's front cell is one row above its cell.
    assert_eq!(m.spawn_shopper(&shop, &w, spawn, 7), Some(0));
    assert_eq!(m.shoppers[0].rack_pos(), Node::new(3, 0));
    assert_eq!(m.shoppers[0].cassa_pos(), Node::new(6, 0));
    assert_eq!(m.shoppers[0].candy_pos(), None);
    assert_eq!(m.spawn_shopper(&shop, &w, spawn, 7), Some(1));
    shop.objects[0].food = Some(FoodStorage { food_count: 0, max_food: 8 });
    assert_eq!(m.spawn_shopper(&shop, &w, spawn, 7), None);
    assert_eq!(m.index, 2);
}

#[test]
fn candy_visit() {
    let (mut w, mut shop) = corridor();
    w.insert(Node::new(4, 1));
    w.insert(Node::new(6, 1));
    shop.objects.push(placed(3, "candies", 6, 1, Some(2)));
    let b = balance();
    let spawn = Node::new(0, 0);
    let mut sh = ShopperNpc::spawn(&w, spawn, Node::new(3, 0), Node::new(6, 0), Some(Node::new(6, 1))).unwrap();
    sh.set_state_int(3);
    sh.food_taken = true;
    let here = Node::new(6, 0);
    let roll = Tick { timer_done: true, candy_roll: true, at_exit: false };
    assert!(sh.update_fallback(&mut shop, &w, here, spawn, roll, &b) == ShopperStep::Idle);
    assert!(sh.state == ShopperState::GoingToCandies);
    assert_eq!(shop.money.0, 12);
    let here = walk_to_end(&mut sh);
    assert!(sh.update_fallback(&mut shop, &w, here, spawn, quiet(), &b) == ShopperStep::WaitAtCandies);
    assert!(sh.candy_taken);
    assert_eq!(shop.objects[2].food, Some(FoodStorage { food_count: 1, max_food: 8 }));
    let done = Tick { timer_done: true, candy_roll: false, at_exit: false };
    assert!(sh.update_fallback(&mut shop, &w, here, spawn, done, &b) == ShopperStep::Idle);
    assert_eq!(shop.money.0, 16);
    assert!(sh.state == ShopperState::GoingToExit);
}

#[test]
fn patrol_route_table() {
    let r = patrol_routes();
    assert_eq!(r.len(), 5);
    assert_eq!(r[0], vec![Node::new(13, 11), Node::new(13, -5), Node::new(13, -11), Node::new(-14, -11), Node::new(-15, 11)]);
    assert_eq!(r[3].len(), 8);
    assert_eq!(r[4][6], Node::new(-15, 11));
}

#[test]
fn patrol_skips_the_current_cell() {
    let mut w = Walkable::new();
    for x in 0..5 {
        w.insert(Node::new(x, 0));
    }
    let route = vec![Node::new(0, 0), Node::new(0, 0), Node::new(4, 0)];
    let mut npc = Npc::new(&route, 0);
    npc.advance(&w, Node::new(0, 0));
    assert_eq!(npc.patrol_index, 2);
    assert_eq!(npc.path.len(), 5);
    assert_eq!(npc.path_index, 0);
    npc.advance(&w, Node::new(4, 0));
    assert_eq!(npc.patrol_index, 0);
    assert_eq!(npc.path[4], Node::new(0, 0));
}

#[test]
fn townsfolk_start_on_their_routes() {
    let mut w = Walkable::new();
    for x in -20..20 {
        for y in -15..15 {
            w.insert(Node::new(x, y));
        }
    }
    let routes = patrol_routes();
    let npcs = setup_npcs(&w, &routes);
    assert_eq!(npcs.len(), 5);
    assert_eq!(npcs[0].patrol_index, 1);
    assert_eq!(npcs[2].patrol_index, 3);
    assert_eq!(npcs[2].path[0], Node::new(13, -11));
    assert_eq!(npcs[2].path.last(), Some(&Node::new(13, -8)));
}

#[test]
fn spawns_only_when_open_due_and_below_the_maximum() {
    let (w, shop) = corridor();
    let spawn = Node::new(0, 0);
    let mut m = ShopperManager::new();
    // Closed shop: nothing, not even the count moves.
    assert_eq!(m.spawn_if_due(&shop, &w, spawn, 7, false, true, 5), None);
    assert_eq!((m.shoppers.len(), m.index), (0, 0));
    // Not due yet.
    assert_eq!(m.spawn_if_due(&shop, &w, spawn, 7, true, false, 5), None);
    assert_eq!(m.index, 0);
    // Open and due.
    assert_eq!(m.spawn_if_due(&shop, &w, spawn, 7, true, true, 1), Some(0));
    assert_eq!(m.shoppers.len(), 1);
    // The maximum is reached.
    assert_eq!(m.spawn_if_due(&shop, &w, spawn, 7, true, true, 1), None);
    assert_eq!((m.shoppers.len(), m.index), (1, 1));
}
