//! The catalogue of placeable objects, hotbar slots and item categories.

use vstd::prelude::*;
use crate::text::{name_in, str_eq};

verus! {

/// A placeable object: its footprint in cells, texture and price.
/// `texture_frame` / `texture_count` pick the frame of the atlas;
/// `frame_paths` are the frame files of animated objects.
#[derive(Clone, Copy)]
pub struct Object {
    pub width: i32,
    pub height: i32,
    pub name: &'static str,
    pub path: &'static str,
    pub price: i32,
    pub texture_frame: [i32; 2],
    pub texture_count: [i32; 2],
    pub animated: bool,
    pub frame_paths: &'static [&'static str],
}

/// A hotbar slot: the object it holds and whether it is the active one.
#[derive(Clone, Copy)]
pub struct Slot {
    pub obj: Object,
    pub active: bool,
}

/// Every object that can be placed in the shop, in catalogue order.
pub open spec fn catalog() -> Seq<Object> {
    seq![
        Object {
            width: 1,
            height: 1,
            name: "box",
            path: "tex/decor/regular/box/box_0.png",
            price: 30,
            texture_frame: [0, 0],
            texture_count: [1, 1],
            animated: false,
            frame_paths: &[],
        },
        Object {
            width: 1,
            height: 1,
            name: "sign",
            path: "tex/decor/regular/sign.png",
            price: 5,
            texture_frame: [0, 0],
            texture_count: [1, 1],
            animated: false,
            frame_paths: &[],
        },
        Object {
            width: 1,
            height: 2,
            name: "rack",
            path: "tex/decor/regular/rack/rack_0.png",
            price: 40,
            texture_frame: [0, 1],
            texture_count: [1, 2],
            animated: false,
            frame_paths: &[],
        },
        Object {
            width: 2,
            height: 1,
            name: "table",
            path: "tex/decor/regular/table.png",
            price: 15,
            texture_frame: [0, 0],
            texture_count: [2, 1],
            animated: false,
            frame_paths: &[],
        },
        Object {
            width: 2,
            height: 2,
            name: "cassa",
            path: "tex/decor/regular/cassa.png",
            price: 60,
            texture_frame: [0, 1],
            texture_count: [2, 2],
            animated: false,
            frame_paths: &[],
        },
        Object {
            width: 2,
            height: 1,
            name: "ice_cream",
            path: "tex/decor/regular/ice_cream.png",
            price: 20,
            texture_frame: [0, 0],
            texture_count: [2, 1],
            animated: false,
            frame_paths: &[],
        },
        Object {
            width: 1,
            height: 2,
            name: "candies",
            path: "tex/decor/regular/candies.png",
            price: 35,
            texture_frame: [0, 1],
            texture_count: [1, 2],
            animated: false,
            frame_paths: &[],
        },
        Object {
            width: 1,
            height: 2,
            name: "arcade_machine",
            path: "tex/decor/regular/arcade_machine/a_m_1.png",
            price: 80,
            texture_frame: [0, 1],
            texture_count: [1, 2],
            animated: true,
            frame_paths: &["tex/decor/regular/arcade_machine/a_m_1.png", "tex/decor/regular/arcade_machine/a_m_2.png"],
        },
        Object {
            width: 1,
            height: 1,
            name: "lamp",
            path: "tex/decor/light/lamp.png",
            price: 20,
            texture_frame: [0, 0],
            texture_count: [1, 1],
            animated: false,
            frame_paths: &[],
        },
        Object {
            width: 1,
            height: 1,
            name: "blue_carpet",
            path: "tex/decor/carpets/carpet.png",
            price: 5,
            texture_frame: [0, 0],
            texture_count: [4, 4],
            animated: false,
            frame_paths: &[],
        },
        Object {
            width: 1,
            height: 1,
            name: "red_carpet",
            path: "tex/decor/carpets/carpet.png",
            price: 5,
            texture_frame: [1, 0],
            texture_count: [4, 4],
            animated: false,
            frame_paths: &[],
        },
        Object {
            width: 1,
            height: 1,
            name: "green_carpet",
            path: "tex/decor/carpets/carpet.png",
            price: 5,
            texture_frame: [0, 1],
            texture_count: [4, 4],
            animated: false,
            frame_paths: &[],
        },
        Object {
            width: 1,
            height: 1,
            name: "white_carpet",
            path: "tex/decor/carpets/carpet.png",
            price: 5,
            texture_frame: [1, 1],
            texture_count: [4, 4],
            animated: false,
            frame_paths: &[],
        },
        Object {
            width: 1,
            height: 1,
            name: "black_carpet",
            path: "tex/decor/carpets/carpet.png",
            price: 5,
            texture_frame: [2, 0],
            texture_count: [4, 4],
            animated: false,
            frame_paths: &[],
        },
        Object {
            width: 1,
            height: 1,
            name: "iron_panel",
            path: "tex/decor/carpets/carpet.png",
            price: 8,
            texture_frame: [0, 2],
            texture_count: [4, 4],
            animated: false,
            frame_paths: &[],
        },
        Object {
            width: 1,
            height: 1,
            name: "gold_panel",
            path: "tex/decor/carpets/carpet.png",
            price: 15,
            texture_frame: [1, 2],
            texture_count: [4, 4],
            animated: false,
            frame_paths: &[],
        },
        Object {
            width: 1,
            height: 1,
            name: "diamond_panel",
            path: "tex/decor/carpets/carpet.png",
            price: 20,
            texture_frame: [2, 2],
            texture_count: [4, 4],
            animated: false,
            frame_paths: &[],
        },
        Object {
            width: 2,
            height: 2,
            name: "welcome",
            path: "tex/decor/walldecor/welcome/welcome_0.png",
            price: 25,
            texture_frame: [0, 1],
            texture_count: [2, 2],
            animated: true,
            frame_paths: &["tex/decor/walldecor/welcome/welcome_0.png", "tex/decor/walldecor/welcome/welcome_1.png"],
        },
        Object {
            width: 1,
            height: 2,
            name: "fnaf",
            path: "tex/decor/walldecor/fnaf.png",
            price: 30,
            texture_frame: [0, 1],
            texture_count: [1, 2],
            animated: false,
            frame_paths: &[],
        },
        Object {
            width: 1,
            height: 1,
            name: "watch",
            path: "tex/decor/walldecor/watch.png",
            price: 10,
            texture_frame: [0, 0],
            texture_count: [1, 1],
            animated: false,
            frame_paths: &[],
        },
        Object {
            width: 1,
            height: 1,
            name: "fence",
            path: "tex/decor/regular/fence/fence_0_0_0_0.png",
            price: 5,
            texture_frame: [0, 0],
            texture_count: [1, 1],
            animated: false,
            frame_paths: &[],
        },
        Object {
            width: 1,
            height: 1,
            name: "street_fence",
            path: "tex/decor/outdoor/street_fence/street_fence_0_0_0_0.png",
            price: 8,
            texture_frame: [0, 0],
            texture_count: [1, 1],
            animated: false,
            frame_paths: &[],
        },
        Object {
            width: 1,
            height: 2,
            name: "tree",
            path: "tex/decor/outdoor/tree.png",
            price: 20,
            texture_frame: [0, 1],
            texture_count: [1, 2],
            animated: false,
            frame_paths: &[],
        },
        Object {
            width: 1,
            height: 1,
            name: "pink_flower",
            path: "tex/decor/outdoor/pink_flower.png",
            price: 3,
            texture_frame: [0, 0],
            texture_count: [1, 1],
            animated: false,
            frame_paths: &[],
        },
        Object {
            width: 1,
            height: 1,
            name: "blue_flower",
            path: "tex/decor/outdoor/blue_flower.png",
            price: 3,
            texture_frame: [0, 0],
            texture_count: [1, 1],
            animated: false,
            frame_paths: &[],
        },
        Object {
            width: 1,
            height: 1,
            name: "yellow_flower",
            path: "tex/decor/outdoor/yellow_flower.png",
            price: 3,
            texture_frame: [0, 0],
            texture_count: [1, 1],
            animated: false,
            frame_paths: &[],
        },
        Object {
            width: 1,
            height: 1,
            name: "red_flower",
            path: "tex/decor/outdoor/red_flower.png",
            price: 3,
            texture_frame: [0, 0],
            texture_count: [1, 1],
            animated: false,
            frame_paths: &[],
        },
        Object {
            width: 1,
            height: 1,
            name: "white_flower",
            path: "tex/decor/outdoor/white_flower.png",
            price: 3,
            texture_frame: [0, 0],
            texture_count: [1, 1],
            animated: false,
            frame_paths: &[],
        },
        Object {
            width: 3,
            height: 2,
            name: "street_ice_cream",
            path: "tex/decor/outdoor/street_ice_cream.png",
            price: 25,
            texture_frame: [0, 1],
            texture_count: [3, 2],
            animated: false,
            frame_paths: &[],
        },
        Object {
            width: 1,
            height: 1,
            name: "trashcan",
            path: "tex/decor/outdoor/trashcan.png",
            price: 5,
            texture_frame: [0, 0],
            texture_count: [1, 1],
            animated: false,
            frame_paths: &[],
        },
        Object {
            width: 2,
            height: 1,
            name: "bench",
            path: "tex/decor/outdoor/bench.png",
            price: 12,
            texture_frame: [0, 0],
            texture_count: [2, 1],
            animated: false,
            frame_paths: &[],
        },
        Object {
            width: 1,
            height: 2,
            name: "basement",
            path: "tex/decor/regular/basement.png",
            price: 100,
            texture_frame: [0, 1],
            texture_count: [1, 2],
            animated: false,
            frame_paths: &[],
        },
    ]
}

/// The catalogue as a vector.
pub fn all_objects() -> (v: Vec<Object>)
    ensures
        v@ == catalog(),
{
    let v = vec![
        Object {
            width: 1,
            height: 1,
            name: "box",
            path: "tex/decor/regular/box/box_0.png",
            price: 30,
            texture_frame: [0, 0],
            texture_count: [1, 1],
            animated: false,
            frame_paths: &[],
        },
        Object {
            width: 1,
            height: 1,
            name: "sign",
            path: "tex/decor/regular/sign.png",
            price: 5,
            texture_frame: [0, 0],
            texture_count: [1, 1],
            animated: false,
            frame_paths: &[],
        },
        Object {
            width: 1,
            height: 2,
            name: "rack",
            path: "tex/decor/regular/rack/rack_0.png",
            price: 40,
            texture_frame: [0, 1],
            texture_count: [1, 2],
            animated: false,
            frame_paths: &[],
        },
        Object {
            width: 2,
            height: 1,
            name: "table",
            path: "tex/decor/regular/table.png",
            price: 15,
            texture_frame: [0, 0],
            texture_count: [2, 1],
            animated: false,
            frame_paths: &[],
        },
        Object {
            width: 2,
            height: 2,
            name: "cassa",
            path: "tex/decor/regular/cassa.png",
            price: 60,
            texture_frame: [0, 1],
            texture_count: [2, 2],
            animated: false,
            frame_paths: &[],
        },
        Object {
            width: 2,
            height: 1,
            name: "ice_cream",
            path: "tex/decor/regular/ice_cream.png",
            price: 20,
            texture_frame: [0, 0],
            texture_count: [2, 1],
            animated: false,
            frame_paths: &[],
        },
        Object {
            width: 1,
            height: 2,
            name: "candies",
            path: "tex/decor/regular/candies.png",
            price: 35,
            texture_frame: [0, 1],
            texture_count: [1, 2],
            animated: false,
            frame_paths: &[],
        },
        Object {
            width: 1,
            height: 2,
            name: "arcade_machine",
            path: "tex/decor/regular/arcade_machine/a_m_1.png",
            price: 80,
            texture_frame: [0, 1],
            texture_count: [1, 2],
            animated: true,
            frame_paths: &["tex/decor/regular/arcade_machine/a_m_1.png", "tex/decor/regular/arcade_machine/a_m_2.png"],
        },
        Object {
            width: 1,
            height: 1,
            name: "lamp",
            path: "tex/decor/light/lamp.png",
            price: 20,
            texture_frame: [0, 0],
            texture_count: [1, 1],
            animated: false,
            frame_paths: &[],
        },
        Object {
            width: 1,
            height: 1,
            name: "blue_carpet",
            path: "tex/decor/carpets/carpet.png",
            price: 5,
            texture_frame: [0, 0],
            texture_count: [4, 4],
            animated: false,
            frame_paths: &[],
        },
        Object {
            width: 1,
            height: 1,
            name: "red_carpet",
            path: "tex/decor/carpets/carpet.png",
            price: 5,
            texture_frame: [1, 0],
            texture_count: [4, 4],
            animated: false,
            frame_paths: &[],
        },
        Object {
            width: 1,
            height: 1,
            name: "green_carpet",
            path: "tex/decor/carpets/carpet.png",
            price: 5,
            texture_frame: [0, 1],
            texture_count: [4, 4],
            animated: false,
            frame_paths: &[],
        },
        Object {
            width: 1,
            height: 1,
            name: "white_carpet",
            path: "tex/decor/carpets/carpet.png",
            price: 5,
            texture_frame: [1, 1],
            texture_count: [4, 4],
            animated: false,
            frame_paths: &[],
        },
        Object {
            width: 1,
            height: 1,
            name: "black_carpet",
            path: "tex/decor/carpets/carpet.png",
            price: 5,
            texture_frame: [2, 0],
            texture_count: [4, 4],
            animated: false,
            frame_paths: &[],
        },
        Object {
            width: 1,
            height: 1,
            name: "iron_panel",
            path: "tex/decor/carpets/carpet.png",
            price: 8,
            texture_frame: [0, 2],
            texture_count: [4, 4],
            animated: false,
            frame_paths: &[],
        },
        Object {
            width: 1,
            height: 1,
            name: "gold_panel",
            path: "tex/decor/carpets/carpet.png",
            price: 15,
            texture_frame: [1, 2],
            texture_count: [4, 4],
            animated: false,
            frame_paths: &[],
        },
        Object {
            width: 1,
            height: 1,
            name: "diamond_panel",
            path: "tex/decor/carpets/carpet.png",
            price: 20,
            texture_frame: [2, 2],
            texture_count: [4, 4],
            animated: false,
            frame_paths: &[],
        },
        Object {
            width: 2,
            height: 2,
            name: "welcome",
            path: "tex/decor/walldecor/welcome/welcome_0.png",
            price: 25,
            texture_frame: [0, 1],
            texture_count: [2, 2],
            animated: true,
            frame_paths: &["tex/decor/walldecor/welcome/welcome_0.png", "tex/decor/walldecor/welcome/welcome_1.png"],
        },
        Object {
            width: 1,
            height: 2,
            name: "fnaf",
            path: "tex/decor/walldecor/fnaf.png",
            price: 30,
            texture_frame: [0, 1],
            texture_count: [1, 2],
            animated: false,
            frame_paths: &[],
        },
        Object {
            width: 1,
            height: 1,
            name: "watch",
            path: "tex/decor/walldecor/watch.png",
            price: 10,
            texture_frame: [0, 0],
            texture_count: [1, 1],
            animated: false,
            frame_paths: &[],
        },
        Object {
            width: 1,
            height: 1,
            name: "fence",
            path: "tex/decor/regular/fence/fence_0_0_0_0.png",
            price: 5,
            texture_frame: [0, 0],
            texture_count: [1, 1],
            animated: false,
            frame_paths: &[],
        },
        Object {
            width: 1,
            height: 1,
            name: "street_fence",
            path: "tex/decor/outdoor/street_fence/street_fence_0_0_0_0.png",
            price: 8,
            texture_frame: [0, 0],
            texture_count: [1, 1],
            animated: false,
            frame_paths: &[],
        },
        Object {
            width: 1,
            height: 2,
            name: "tree",
            path: "tex/decor/outdoor/tree.png",
            price: 20,
            texture_frame: [0, 1],
            texture_count: [1, 2],
            animated: false,
            frame_paths: &[],
        },
        Object {
            width: 1,
            height: 1,
            name: "pink_flower",
            path: "tex/decor/outdoor/pink_flower.png",
            price: 3,
            texture_frame: [0, 0],
            texture_count: [1, 1],
            animated: false,
            frame_paths: &[],
        },
        Object {
            width: 1,
            height: 1,
            name: "blue_flower",
            path: "tex/decor/outdoor/blue_flower.png",
            price: 3,
            texture_frame: [0, 0],
            texture_count: [1, 1],
            animated: false,
            frame_paths: &[],
        },
        Object {
            width: 1,
            height: 1,
            name: "yellow_flower",
            path: "tex/decor/outdoor/yellow_flower.png",
            price: 3,
            texture_frame: [0, 0],
            texture_count: [1, 1],
            animated: false,
            frame_paths: &[],
        },
        Object {
            width: 1,
            height: 1,
            name: "red_flower",
            path: "tex/decor/outdoor/red_flower.png",
            price: 3,
            texture_frame: [0, 0],
            texture_count: [1, 1],
            animated: false,
            frame_paths: &[],
        },
        Object {
            width: 1,
            height: 1,
            name: "white_flower",
            path: "tex/decor/outdoor/white_flower.png",
            price: 3,
            texture_frame: [0, 0],
            texture_count: [1, 1],
            animated: false,
            frame_paths: &[],
        },
        Object {
            width: 3,
            height: 2,
            name: "street_ice_cream",
            path: "tex/decor/outdoor/street_ice_cream.png",
            price: 25,
            texture_frame: [0, 1],
            texture_count: [3, 2],
            animated: false,
            frame_paths: &[],
        },
        Object {
            width: 1,
            height: 1,
            name: "trashcan",
            path: "tex/decor/outdoor/trashcan.png",
            price: 5,
            texture_frame: [0, 0],
            texture_count: [1, 1],
            animated: false,
            frame_paths: &[],
        },
        Object {
            width: 2,
            height: 1,
            name: "bench",
            path: "tex/decor/outdoor/bench.png",
            price: 12,
            texture_frame: [0, 0],
            texture_count: [2, 1],
            animated: false,
            frame_paths: &[],
        },
        Object {
            width: 1,
            height: 2,
            name: "basement",
            path: "tex/decor/regular/basement.png",
            price: 100,
            texture_frame: [0, 1],
            texture_count: [1, 2],
            animated: false,
            frame_paths: &[],
        },
    ];
    assert(v@ =~= catalog());
    v
}

/// `k` is the first catalogue entry named `name`.
pub open spec fn first_named(name: Seq<char>, k: int) -> bool {
    &&& 0 <= k < catalog().len()
    &&& catalog()[k].name@ == name
    &&& forall|m: int| 0 <= m < k ==> #[trigger] catalog()[m].name@ != name
}

/// Some catalogue entry is named `name`.
pub open spec fn in_catalog(name: Seq<char>) -> bool {
    exists|k: int| 0 <= k < catalog().len() && #[trigger] catalog()[k].name@ == name
}

/// The object named `name`; the first of the catalogue for unknown names.
pub open spec fn object_named(name: Seq<char>) -> Object {
    if in_catalog(name) {
        catalog()[choose|k: int| first_named(name, k)]
    } else {
        catalog()[0]
    }
}

proof fn lemma_object_named(name: Seq<char>, k: int)
    requires
        first_named(name, k),
    ensures
        object_named(name) == catalog()[k],
{
    let j = choose|j: int| first_named(name, j);
    assert(first_named(name, j));
    if j < k {
        assert(catalog()[j].name@ != name);
    }
    if k < j {
        assert(catalog()[k].name@ != name);
    }
}

/// Index of the first catalogue entry named `name`.
fn find_object(objs: &Vec<Object>, name: &str) -> (r: Option<usize>)
    requires
        objs@ == catalog(),
    ensures
        r matches Some(k) ==> first_named(name@, k as int),
        r is None ==> !in_catalog(name@),
{
    let mut i: usize = 0;
    while i < objs.len()
        invariant
            objs@ == catalog(),
            i <= objs@.len(),
            forall|m: int| 0 <= m < i ==> #[trigger] catalog()[m].name@ != name@,
        decreases objs@.len() - i,
    {
        if str_eq(objs[i].name, name) {
            return Some(i);
        }
        i = i + 1;
    }
    None
}

/// A slot holding the object named `name` (the first of the catalogue for
/// unknown names), marked active.
pub fn make_slot(name: &str) -> (s: Slot)
    ensures
        s.obj == object_named(name@),
        s.active,
{
    let objs = all_objects();
    match find_object(&objs, name) {
        Some(k) => {
            proof {
                lemma_object_named(name@, k as int);
            }
            Slot { obj: objs[k], active: true }
        },
        None => Slot { obj: objs[0], active: true },
    }
}

/// Objects of the starting hotbar.
pub open spec fn initial_slot_names() -> Seq<&'static str> {
    seq!["box", "sign", "rack", "table", "cassa"]
}

/// Objects of the starting hotbar.
pub fn initial_slots() -> (r: &'static [&'static str])
    ensures
        r@ == initial_slot_names(),
{
    let r: &'static [&'static str] = &["box", "sign", "rack", "table", "cassa"];
    assert(r@ =~= initial_slot_names());
    r
}

/// Inventory tab of regular furniture.
pub open spec fn regular_names() -> Seq<&'static str> {
    seq!["box", "sign", "rack", "table", "cassa", "ice_cream", "arcade_machine", "candies", "fence"]
}

/// Inventory tab of regular furniture.
pub fn inv_regular() -> (r: &'static [&'static str])
    ensures
        r@ == regular_names(),
{
    let r: &'static [&'static str] = &["box", "sign", "rack", "table", "cassa", "ice_cream", "arcade_machine", "candies", "fence"];
    assert(r@ =~= regular_names());
    r
}

/// Carpets and floor panels (also their inventory tab).
pub open spec fn carpet_name_list() -> Seq<&'static str> {
    seq!["blue_carpet", "red_carpet", "green_carpet", "white_carpet", "black_carpet", "iron_panel", "gold_panel", "diamond_panel"]
}

/// Carpets and floor panels (also their inventory tab).
pub fn carpet_names() -> (r: &'static [&'static str])
    ensures
        r@ == carpet_name_list(),
{
    let r: &'static [&'static str] = &["blue_carpet", "red_carpet", "green_carpet", "white_carpet", "black_carpet", "iron_panel", "gold_panel", "diamond_panel"];
    assert(r@ =~= carpet_name_list());
    r
}

/// Wall decorations (also their inventory tab).
pub open spec fn walldecor_names() -> Seq<&'static str> {
    seq!["welcome", "fnaf"]
}

/// Wall decorations (also their inventory tab).
pub fn inv_walldecor() -> (r: &'static [&'static str])
    ensures
        r@ == walldecor_names(),
{
    let r: &'static [&'static str] = &["welcome", "fnaf"];
    assert(r@ =~= walldecor_names());
    r
}

/// Outdoor objects (also their inventory tab).
pub open spec fn outdoor_name_list() -> Seq<&'static str> {
    seq!["street_fence", "tree", "pink_flower", "blue_flower", "yellow_flower", "red_flower", "white_flower", "street_ice_cream"]
}

/// Outdoor objects (also their inventory tab).
pub fn outdoor_names() -> (r: &'static [&'static str])
    ensures
        r@ == outdoor_name_list(),
{
    let r: &'static [&'static str] = &["street_fence", "tree", "pink_flower", "blue_flower", "yellow_flower", "red_flower", "white_flower", "street_ice_cream"];
    assert(r@ =~= outdoor_name_list());
    r
}

/// Flowers.
pub open spec fn flower_name_list() -> Seq<&'static str> {
    seq!["pink_flower", "blue_flower", "yellow_flower", "red_flower", "white_flower"]
}

/// Flowers.
pub fn flower_names() -> (r: &'static [&'static str])
    ensures
        r@ == flower_name_list(),
{
    let r: &'static [&'static str] = &["pink_flower", "blue_flower", "yellow_flower", "red_flower", "white_flower"];
    assert(r@ =~= flower_name_list());
    r
}

/// Light sources.
pub open spec fn light_names() -> Seq<&'static str> {
    seq!["lamp", "big_lamp"]
}

/// Light sources.
pub fn inv_light() -> (r: &'static [&'static str])
    ensures
        r@ == light_names(),
{
    let r: &'static [&'static str] = &["lamp", "big_lamp"];
    assert(r@ =~= light_names());
    r
}

/// `name` is one of `list`.
pub open spec fn listed(list: Seq<&'static str>, name: Seq<char>) -> bool {
    exists|i: int| 0 <= i < list.len() && #[trigger] list[i]@ == name
}

/// Carpets and floor panels lie on the floor under furniture.
pub fn is_carpet_name(name: &str) -> (b: bool)
    ensures
        b == listed(carpet_name_list(), name@),
{
    name_in(carpet_names(), name)
}

/// Wall decorations hang on walls.
pub fn is_wall_decor_name(name: &str) -> (b: bool)
    ensures
        b == listed(walldecor_names(), name@),
{
    name_in(inv_walldecor(), name)
}

/// Outdoor objects stand on grass.
pub fn is_outdoor_name(name: &str) -> (b: bool)
    ensures
        b == listed(outdoor_name_list(), name@),
{
    name_in(outdoor_names(), name)
}

/// Flowers grow in flower beds on grass.
pub fn is_flower_name(name: &str) -> (b: bool)
    ensures
        b == listed(flower_name_list(), name@),
{
    name_in(flower_names(), name)
}

/// Lamps light the scene.
pub fn is_light_name(name: &str) -> (b: bool)
    ensures
        b == listed(light_names(), name@),
{
    name_in(inv_light(), name)
}

/// The starting hotbar: the first five objects of the catalogue, the first
/// slot active.
pub fn get_slot_vec() -> (v: Vec<Slot>)
    ensures
        v@.len() == initial_slot_names().len(),
        forall|i: int|
            0 <= i < v@.len() ==> #[trigger] v@[i].obj == object_named(initial_slot_names()[i]@)
                && v@[i].active == (i == 0),
{
    let objs = all_objects();
    let names = initial_slots();
    let mut v: Vec<Slot> = Vec::new();
    let mut i: usize = 0;
    while i < names.len()
        invariant
            objs@ == catalog(),
            names@ == initial_slot_names(),
            i <= names@.len(),
            v@.len() == i,
            forall|k: int|
                0 <= k < i ==> #[trigger] v@[k].obj == object_named(initial_slot_names()[k]@)
                    && v@[k].active == (k == 0),
        decreases names@.len() - i,
    {
        proof {
            assert(catalog()[i as int].name == names@[i as int]);
        }
        match find_object(&objs, names[i]) {
            Some(k) => {
                proof {
                    lemma_object_named(names@[i as int]@, k as int);
                }
                v.push(Slot { obj: objs[k], active: i == 0 });
            },
            None => {
                proof {
                    assert(in_catalog(names@[i as int]@));
                }
                return v;
            },
        }
        i = i + 1;
    }
    v
}

/// Price overrides `prices` hold one for `name`; `k` is the first.
pub open spec fn first_override(prices: Seq<(String, i32)>, name: Seq<char>, k: int) -> bool {
    &&& 0 <= k < prices.len()
    &&& prices[k].0@ == name
    &&& forall|m: int| 0 <= m < k ==> #[trigger] prices[m].0@ != name
}

/// Installation price of the object named `name`: the first override
/// configured for the name, or else its catalogue price.
pub open spec fn configured_price(prices: Seq<(String, i32)>, name: Seq<char>) -> i32 {
    if exists|k: int| first_override(prices, name, k) {
        prices[choose|k: int| first_override(prices, name, k)].1
    } else {
        object_named(name).price
    }
}

/// At most one index is the first override of a name.
proof fn lemma_first_override_unique(prices: Seq<(String, i32)>, name: Seq<char>, k: int, m: int)
    requires
        first_override(prices, name, k),
        first_override(prices, name, m),
    ensures
        k == m,
{
    if k < m {
        assert(prices[k].0@ != name);
    } else if m < k {
        assert(prices[m].0@ != name);
    }
}

/// Installation price of an object: the override configured for its name,
/// or the catalogue price.
pub fn object_price(name: &str, prices: &Vec<(String, i32)>) -> (p: i32)
    ensures
        p == configured_price(prices@, name@),
{
    let mut i: usize = 0;
    while i < prices.len()
        invariant
            i <= prices@.len(),
            forall|m: int| 0 <= m < i ==> #[trigger] prices@[m].0@ != name@,
        decreases prices@.len() - i,
    {
        if str_eq(prices[i].0.as_str(), name) {
            proof {
                assert(first_override(prices@, name@, i as int));
                let c = choose|k: int| first_override(prices@, name@, k);
                lemma_first_override_unique(prices@, name@, c, i as int);
            }
            return prices[i].1;
        }
        i = i + 1;
    }
    make_slot(name).obj.price
}

/// Every flower is an outdoor object and never a carpet.
pub proof fn law_flowers_are_outdoor(name: Seq<char>)
    requires
        listed(flower_name_list(), name),
    ensures
        listed(outdoor_name_list(), name),
        !listed(carpet_name_list(), name),
{
    let f = flower_name_list();
    let o = outdoor_name_list();
    let c = carpet_name_list();
    let i = choose|i: int| 0 <= i < f.len() && #[trigger] f[i]@ == name;
    assert(o[i + 2] == f[i]);
    assert(o[i + 2]@ == name);
    reveal_strlit("pink_flower");
    reveal_strlit("blue_flower");
    reveal_strlit("yellow_flower");
    reveal_strlit("red_flower");
    reveal_strlit("white_flower");
    reveal_strlit("blue_carpet");
    reveal_strlit("red_carpet");
    reveal_strlit("green_carpet");
    reveal_strlit("white_carpet");
    reveal_strlit("black_carpet");
    reveal_strlit("iron_panel");
    reveal_strlit("gold_panel");
    reveal_strlit("diamond_panel");
    assert forall|j: int| 0 <= j < c.len() implies #[trigger] c[j]@ != name by {
        assert(c[j]@.last() != name.last() || c[j]@.len() != name.len() || c[j]@[0] != name[0]);
    }
}

} // verus!
