use cys::catalog::{
    get_slot_vec, is_carpet_name, is_flower_name, is_light_name, is_outdoor_name, is_wall_decor_name,
    make_slot, object_price,
};
use cys::inventory::{inventory_index, select_slot, slot_icon_path, Inventory};
use cys::save::{
    create_world, create_world_with_name, delete_world, list_worlds, touch_world, unique_world_name,
    world_meta, world_save_path, WorldManifest, WorldMeta,
};
use cys::scene::SceneAction;

#[test]
fn make_slot_finds_catalogue_object() {
    let s = make_slot("rack");
    assert_eq!(s.obj.name, "rack");
    assert_eq!(s.obj.width, 1);
    assert_eq!(s.obj.height, 2);
    assert_eq!(s.obj.price, 40);
    assert!(s.active);
    assert_eq!(make_slot("no such thing").obj.name, "box");
}

#[test]
fn starting_hotbar() {
    let v = get_slot_vec();
    let names: Vec<&str> = v.iter().map(|s| s.obj.name).collect();
    assert_eq!(names, vec!["box", "sign", "rack", "table", "cassa"]);
    assert!(v[0].active);
    assert!(v.iter().skip(1).all(|s| !s.active));
}

#[test]
fn price_overrides() {
    let prices = vec![("box".to_string(), 7), ("box".to_string(), 9)];
    assert_eq!(object_price("box", &prices), 7);
    assert_eq!(object_price("rack", &prices), 40);
    assert_eq!(object_price("rack", &Vec::new()), 40);
}

#[test]
fn categories_of_names() {
    assert!(is_carpet_name("red_carpet"));
    assert!(!is_carpet_name("box"));
    assert!(is_wall_decor_name("fnaf"));
    assert!(is_outdoor_name("tree"));
    assert!(is_flower_name("pink_flower"));
    assert!(!is_flower_name("tree"));
    assert!(is_light_name("big_lamp"));
    assert!(!is_light_name("lamp_post"));
}

#[test]
fn inventory_grid_numbering() {
    assert_eq!(inventory_index(0, 0), 20);
    assert_eq!(inventory_index(4, 4), 4);
    assert_eq!(inventory_index(2, 3), 13);
}

#[test]
fn icon_paths() {
    assert_eq!(slot_icon_path("box"), "tex/ui/icon_slots/icon_slots_object/regular/box.png");
    assert_eq!(slot_icon_path("red_carpet"), "tex/ui/icon_slots/icon_slots_object/carpets/red_carpet.png");
    assert_eq!(slot_icon_path("fnaf"), "tex/ui/icon_slots/icon_slots_object/walldecor/fnaf.png");
    assert_eq!(slot_icon_path("tree"), "tex/ui/icon_slots/icon_slots_object/outdoor/tree.png");
    assert_eq!(slot_icon_path("lamp"), "tex/ui/icon_slots/lamp.png");
}

#[test]
fn inventory_select_and_transfer() {
    let mut inv = Inventory::new();
    assert!(!inv.open);
    inv.enter();
    assert!(inv.open && inv.mode);
    // Bottom-left cell of the grid (row 4 from the top) holds the first item.
    assert!(inv.handle_grid_click(0, 4));
    assert_eq!(inv.selected_item_name(), Some("box"));
    assert!(!inv.handle_grid_click(5, 0));
    let mut hotbar = get_slot_vec();
    let r = inv.transfer_to_slot(1, &mut hotbar);
    assert_eq!(r, Some("box"));
    assert_eq!(hotbar[1].obj.name, "box");
    assert!(!inv.open);
    inv.switch_tab(1);
    assert_eq!(inv.items()[0], "blue_carpet");
}

#[test]
fn save_file_names() {
    assert_eq!(world_save_path(0), "worlds/world_0.json");
    assert_eq!(world_save_path(4294967295), "worlds/world_4294967295.json");
}

fn meta(id: u32, name: &str, updated: i64) -> WorldMeta {
    WorldMeta { id, name: name.to_string(), created: 0, updated }
}

#[test]
fn unique_names_get_the_least_free_suffix() {
    let worlds = vec![meta(0, "Shop", 0), meta(1, "Shop(1)", 0), meta(2, "Shop(3)", 0)];
    assert_eq!(unique_world_name(&worlds, "  Shop "), "Shop(2)");
    assert_eq!(unique_world_name(&worlds, "Other"), "Other");
    assert_eq!(unique_world_name(&Vec::new(), "   "), "Мир");
}

#[test]
fn create_touch_list_delete_worlds() {
    let mut m = WorldManifest::new();
    let a = create_world(&mut m, 100);
    assert_eq!((a.id, a.name.as_str(), a.created, a.updated), (0, "Мир", 100, 100));
    let b = create_world_with_name(&mut m, "Мир", 200);
    assert_eq!((b.id, b.name.as_str()), (1, "Мир(1)"));
    assert_eq!(m.next_id, 2);
    let order: Vec<u32> = list_worlds(&m).iter().map(|w| w.id).collect();
    assert_eq!(order, vec![1, 0]);
    touch_world(&mut m, 0, 300);
    let order: Vec<u32> = list_worlds(&m).iter().map(|w| w.id).collect();
    assert_eq!(order, vec![0, 1]);
    assert_eq!(world_meta(&m, 0).map(|w| w.updated), Some(300));
    delete_world(&mut m, 0);
    assert!(world_meta(&m, 0).is_none());
    assert_eq!(m.worlds.len(), 1);
    assert_eq!(m.next_id, 2);
    let c = create_world(&mut m, 400);
    assert_eq!((c.id, c.name.as_str()), (2, "Мир"));
}

#[test]
fn scene_actions_carry_their_values() {
    let a = SceneAction::Switch("menu".to_string());
    assert!(matches!(a, SceneAction::Switch(ref s) if s == "menu"));
    assert!(matches!(SceneAction::VsyncToggle(true), SceneAction::VsyncToggle(true)));
    assert!(matches!(SceneAction::Nothing, SceneAction::Nothing));
    assert!(matches!(SceneAction::Quit, SceneAction::Quit));
}

#[test]
fn choosing_a_hotbar_slot_moves_the_mark() {
    let mut hotbar = get_slot_vec();
    for s in hotbar.iter_mut() {
        s.active = false;
    }
    hotbar[0].active = true;
    assert_eq!(select_slot(&mut hotbar, 0, 2), 2);
    assert!(!hotbar[0].active);
    assert!(hotbar[2].active);
    assert_eq!(hotbar.iter().filter(|s| s.active).count(), 1);
    // The active slot again: nothing changes.
    assert_eq!(select_slot(&mut hotbar, 2, 2), 2);
    assert!(hotbar[2].active);
    // An active slot the hotbar does not have is simply left.
    assert_eq!(select_slot(&mut hotbar, 40, 1), 1);
    assert!(hotbar[1].active && hotbar[2].active);
}

#[test]
fn a_deleted_world_id_is_not_given_again() {
    let mut m = WorldManifest::new();
    let a = create_world_with_name(&mut m, "Shop", 10);
    delete_world(&mut m, a.id);
    let b = create_world_with_name(&mut m, "Shop", 20);
    assert_eq!(b.id, a.id + 1);
}

#[test]
fn flowers_are_outdoor_objects_and_not_carpets() {
    for name in ["pink_flower", "blue_flower", "yellow_flower", "red_flower", "white_flower"] {
        assert!(is_flower_name(name));
        assert!(is_outdoor_name(name));
        assert!(!is_carpet_name(name));
    }
}
