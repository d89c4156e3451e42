//! What a click on the world does in each mode of the game: look (use the
//! object), build (place the hotbar's item) or erase (remove what is
//! there).

use vstd::prelude::*;
use crate::pathfinding::Node;
use crate::catalog::{Slot, Object, configured_price, listed, carpet_name_list, light_names, walldecor_names, outdoor_name_list, flower_name_list};
use crate::shop::{Shop, Balance, FoodStorage, try_interact, covers, click_signal, named, clashes, within};
use crate::grid::{remove, grid_safe, grid_row, grid_col, revert, refresh_dirs};

verus! {

/// `new` is `old` after a look-mode click at (`gx`, `gy`) that answered
/// `r` (see `try_interact`).
pub open spec fn looked(old: Shop, new: Shop, gx: i32, gy: i32, r: i32) -> bool {
    &&& (forall|k: int| 0 <= k < old.objects@.len() ==> !#[trigger] covers(old.info(k), gx as int, gy as int))
        ==> r == 0 && new == old
    &&& (exists|k: int| 0 <= k < old.objects@.len() && #[trigger] covers(old.info(k), gx as int, gy as int))
        ==> exists|k: int|
        #![trigger old.info(k)]
        old.first_pick(k, gx as int, gy as int) && new.clicked(old, k) && r == click_signal(old.objects@[k])
}

/// `new` is `old` after the hotbar's slot `act_slot` was offered at
/// (`gx`, `gy`) (see `add`).
pub open spec fn built(old: Shop, new: Shop, slots: Seq<Slot>, act_slot: i32, gx: i32, gy: i32, b: Balance) -> bool {
    let obj = slots[act_slot as int].obj;
    &&& old.refuses(obj, gx, gy, b) ==> new == old
    &&& !old.refuses(obj, gx, gy, b) ==> new.placed_from(old, obj, gx, gy, b, old.next_group_id)
}

/// `new` is `old` after an erase-mode click at (`gx`, `gy`) (see
/// `remove`): the picked object goes with half its price refunded, or
/// else the built floor or wall there goes back to the map, or nothing
/// changes.
pub open spec fn erased(old: Shop, new: Shop, gx: i32, gy: i32, b: Balance) -> bool {
    &&& old.covered(gx as int, gy as int) ==> exists|k: int|
        #![trigger old.objects@[k]]
        old.picked(k, gx as int, gy as int) && new.objects@ == old.objects@.remove(k) && new.money.0 == old.money.0
            + old.refund(k, b) && new.basement_placed.0 == (old.basement_placed.0 && !named(old.objects@[k], "basement"@))
            && new.wf() && new.next_group_id == old.next_group_id && new.same_grounds(old)
    &&& !old.covered(gx as int, gy as int) && old.map_removable(gx as int, gy as int) ==> new.map_view()
        == refresh_dirs(
        revert(old.map_view(), old.original_tokens@, Node { x: gx, y: gy }, grid_row(gy as int), grid_col(gx as int)),
        old.original_tokens@,
        gx as int,
        gy as int,
        8,
    ) && new.same_but_map(old)
    &&& !old.covered(gx as int, gy as int) && !old.map_removable(gx as int, gy as int) ==> new == old
}

/// A click on the world at cell (`gx`, `gy`) in `mode`: 0 uses the object
/// there (see `try_interact`), 1 places the hotbar's active item (see
/// `add`), 2 removes what is there (see `remove`); other modes do nothing.
/// Returns the look-mode signal (2: change level, 1: arcade machine), 0 in
/// the other modes.
pub fn do_interact(
    shop: &mut Shop,
    gx: i32,
    gy: i32,
    mode: i32,
    slots: &Vec<Slot>,
    act_slot: i32,
    balance: &Balance,
) -> (r: i32)
    requires
        old(shop).wf(),
        mode == 0 ==> old(shop).click_fits(),
        mode == 1 ==> {
            &&& old(shop).next_group_id < u32::MAX
            &&& 0 <= act_slot < slots@.len()
            &&& gx + slots@[act_slot as int].obj.width - 1 <= i32::MAX
            &&& gy + slots@[act_slot as int].obj.height - 1 <= i32::MAX
            &&& old(shop).money.0 - configured_price(balance.prices@, slots@[act_slot as int].obj.name@) <= i32::MAX
        },
        mode == 2 ==> {
            &&& grid_safe(gx as int, gy as int)
            &&& forall|k: int|
                old(shop).picked(k, gx as int, gy as int) ==> i32::MIN <= old(shop).money.0 + old(shop).refund(
                    k,
                    *balance,
                ) <= i32::MAX
        },
    ensures
        mode == 0 ==> looked(*old(shop), *final(shop), gx, gy, r),
        mode == 1 ==> r == 0 && built(*old(shop), *final(shop), slots@, act_slot, gx, gy, *balance),
        mode == 2 ==> r == 0 && erased(*old(shop), *final(shop), gx, gy, *balance),
        mode != 0 && mode != 1 && mode != 2 ==> r == 0 && *final(shop) == *old(shop),
{
    if mode == 0 {
        try_interact(shop, gx, gy)
    } else if mode == 1 {
        let _ = crate::shop::add(shop, slots, act_slot, gx, gy, balance);
        0
    } else if mode == 2 {
        let _ = remove(shop, gx, gy, balance);
        0
    } else {
        0
    }
}

/// The object that a look-mode click answered by `looked` served is the
/// first pick at the cell.
proof fn lemma_looked_served(old: Shop, new: Shop, gx: i32, gy: i32, r: i32, k: int)
    requires
        looked(old, new, gx, gy, r),
        old.first_pick(k, gx as int, gy as int),
    ensures
        new.clicked(old, k),
        r == click_signal(old.objects@[k]),
{
    assert(covers(old.info(k), gx as int, gy as int));
    let j = choose|j: int|
        #![trigger old.info(j)]
        old.first_pick(j, gx as int, gy as int) && new.clicked(old, j) && r == click_signal(old.objects@[j]);
    old.lemma_first_pick_unique(j, k, gx as int, gy as int);
}

/// Clicking a box that holds food sells all of it: the box is emptied and
/// the stock grows by what the box held, keeping what it held before;
/// every other object stays as it was.
pub proof fn law_box_click_sells(old: Shop, new: Shop, gx: i32, gy: i32, r: i32, k: int)
    requires
        looked(old, new, gx, gy, r),
        old.first_pick(k, gx as int, gy as int),
        named(old.objects@[k], "box"@),
        old.objects@[k].food is Some,
        old.objects@[k].food->0.food_count > 0,
    ensures
        new.total_food.0 == old.total_food.0 + old.objects@[k].food->0.food_count,
        new.objects@[k].food == Some(FoodStorage { food_count: 0, max_food: old.objects@[k].food->0.max_food }),
        new.objects@.len() == old.objects@.len(),
        forall|m: int| 0 <= m < old.objects@.len() && m != k ==> new.objects@[m] == old.objects@[m],
{
    lemma_looked_served(old, new, gx, gy, r, k);
}

/// Clicking a rack that lacks food moves food from the stock into it:
/// what the rack and the stock hold together stays the same, the rack
/// gets no more than it lacks, and the stock gives no more than it has.
pub proof fn law_rack_click_moves_food(old: Shop, new: Shop, gx: i32, gy: i32, r: i32, k: int)
    requires
        looked(old, new, gx, gy, r),
        old.first_pick(k, gx as int, gy as int),
        named(old.objects@[k], "rack"@),
        old.objects@[k].food is Some,
        old.objects@[k].food->0.food_count < old.objects@[k].food->0.max_food,
        old.total_food.0 > 0,
    ensures
        new.objects@[k].food is Some,
        new.objects@[k].food->0.max_food == old.objects@[k].food->0.max_food,
        new.objects@[k].food->0.food_count + new.total_food.0 == old.objects@[k].food->0.food_count
            + old.total_food.0,
        old.objects@[k].food->0.food_count < new.objects@[k].food->0.food_count <= old.objects@[k].food->0.max_food,
        0 <= new.total_food.0 < old.total_food.0,
        new.total_food.0 == 0 || new.objects@[k].food->0.food_count == old.objects@[k].food->0.max_food,
{
    lemma_looked_served(old, new, gx, gy, r, k);
    reveal_strlit("box");
    reveal_strlit("rack");
    assert("box"@[0] != "rack"@[0]);
    assert(!named(old.objects@[k], "box"@));
}

/// In the basement (level -1) a cash desk, a rack or the staircase is
/// never placed: given what `add` ensures of its result `r` and the shop
/// after it, the answer is `None` and the shop is unchanged.
pub proof fn law_basement_refuses_fixtures(
    old: Shop,
    new: Shop,
    obj: Object,
    gx: i32,
    gy: i32,
    b: Balance,
    r: Option<u32>,
)
    requires
        r is None <==> old.refuses(obj, gx, gy, b),
        r is None ==> new == old,
        old.current_level == -1,
        obj.name@ == "rack"@ || obj.name@ == "cassa"@ || obj.name@ == "basement"@,
    ensures
        r is None,
        new == old,
{
}

/// Clicking the staircase asks for the other level (answer 2) and changes
/// no object and not the stock.
pub proof fn law_staircase_click(old: Shop, new: Shop, gx: i32, gy: i32, r: i32, k: int)
    requires
        looked(old, new, gx, gy, r),
        old.first_pick(k, gx as int, gy as int),
        named(old.objects@[k], "basement"@),
        old.objects@[k].food is None,
    ensures
        r == 2,
        new.objects@ == old.objects@,
        new.total_food == old.total_food,
{
    lemma_looked_served(old, new, gx, gy, r, k);
    assert(new.objects@ =~= old.objects@);
}

/// What `add` refuses and what it charges, given what it ensures of its
/// answer `r` and the shop after it: a second staircase, an object the
/// player cannot pay for, one with a cell of its footprint that its kind
/// may not stand on, and one whose footprint meets an object of its layer
/// are refused with the shop unchanged; a placement that goes through
/// costs exactly the price, never more than the player had, and adds one
/// object.
pub proof fn law_add_rules(old: Shop, new: Shop, obj: Object, gx: i32, gy: i32, b: Balance, r: Option<u32>)
    requires
        r is None <==> old.refuses(obj, gx, gy, b),
        r is None ==> new == old,
        r matches Some(id) ==> new.placed_from(old, obj, gx, gy, b, id),
    ensures
        obj.name@ == "basement"@ && old.basement_placed.0 ==> r is None && new == old,
        old.money.0 < configured_price(b.prices@, obj.name@) ==> r is None && new == old,
        (exists|cx: int, cy: int|
            within(cx, gx as int, obj.width as int) && within(cy, gy as int, obj.height as int) && !#[trigger] old.allowed(
                listed(walldecor_names(), obj.name@),
                listed(outdoor_name_list(), obj.name@),
                listed(flower_name_list(), obj.name@),
            ).contains(Node { x: cx as i32, y: cy as i32 })) ==> r is None && new == old,
        (exists|cx: int, cy: int, m: int|
            within(cx, gx as int, obj.width as int) && within(cy, gy as int, obj.height as int) && 0 <= m
                < old.objects@.len() && #[trigger] covers(old.info(m), cx, cy) && clashes(
                listed(carpet_name_list(), obj.name@),
                listed(light_names(), obj.name@),
                old.info(m),
            )) ==> r is None && new == old,
        r is Some ==> new.money.0 == old.money.0 - configured_price(b.prices@, obj.name@) && 0 <= new.money.0
            && new.objects@.len() == old.objects@.len() + 1 && new.objects@.drop_last() == old.objects@,
{
}

} // verus!
