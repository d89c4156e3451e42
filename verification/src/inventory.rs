//! The inventory grid: tabs of item names, the selected cell and moving an
//! item into the hotbar.

use vstd::prelude::*;
use crate::catalog::{
    carpet_name_list, carpet_names, inv_regular, inv_walldecor, listed, make_slot, object_named,
    outdoor_name_list, outdoor_names, regular_names, walldecor_names, Slot,
};

verus! {

/// Rows of the inventory grid.
pub const INVENTORY_ROWS: i32 = 5;

/// Columns of the inventory grid.
pub const INVENTORY_COLS: i32 = 5;

/// The value of `selected` that marks no cell clicked yet
/// (`INVENTORY_ROWS * (INVENTORY_COLS - 1)`).
pub const INV_NONE: i32 = 20;

pub const TEX_UI_ICON_SLOTS_OBJECT_DIR: &'static str = "tex/ui/icon_slots/icon_slots_object/";

pub const TEX_UI_ICON_SLOTS_MAP_DIR: &'static str = "tex/ui/icon_slots/";

/// Position in the item list of a tab of the grid cell (`row`, `col`); rows
/// count from the bottom, the list fills the grid from the top.
pub open spec fn grid_index(row: int, col: int) -> int {
    (INVENTORY_ROWS - 1 - row) * INVENTORY_COLS + col
}

/// Index in the item list of the grid cell (`row`, `col`).
pub fn inventory_index(row: i32, col: i32) -> (r: i32)
    requires
        i32::MIN <= grid_index(row as int, col as int) <= i32::MAX,
        i32::MIN <= (INVENTORY_ROWS - 1 - row) * INVENTORY_COLS <= i32::MAX,
    ensures
        r == grid_index(row as int, col as int),
{
    (INVENTORY_ROWS - 1 - row) * INVENTORY_COLS + col
}

/// Icon of a hotbar item: inventory items have an icon in the folder of
/// their tab, other names one directly in the icon folder.
pub open spec fn icon_path(name: Seq<char>) -> Seq<char> {
    let dir = "tex/ui/icon_slots/icon_slots_object/"@;
    if listed(regular_names(), name) {
        dir + "regular/"@ + name + ".png"@
    } else if listed(carpet_name_list(), name) {
        dir + "carpets/"@ + name + ".png"@
    } else if listed(walldecor_names(), name) {
        dir + "walldecor/"@ + name + ".png"@
    } else if listed(outdoor_name_list(), name) {
        dir + "outdoor/"@ + name + ".png"@
    } else {
        "tex/ui/icon_slots/"@ + name + ".png"@
    }
}

/// Path of the hotbar icon of the item `name`.
pub fn slot_icon_path(name: &str) -> (p: String)
    ensures
        p@ == icon_path(name@),
{
    let subdir: &str = if crate::text::name_in(inv_regular(), name) {
        "regular/"
    } else if crate::text::name_in(carpet_names(), name) {
        "carpets/"
    } else if crate::text::name_in(inv_walldecor(), name) {
        "walldecor/"
    } else if crate::text::name_in(outdoor_names(), name) {
        "outdoor/"
    } else {
        let mut p = String::from_str(TEX_UI_ICON_SLOTS_MAP_DIR);
        p.append(name);
        p.append(".png");
        return p;
    };
    let mut p = String::from_str(TEX_UI_ICON_SLOTS_OBJECT_DIR);
    p.append(subdir);
    p.append(name);
    p.append(".png");
    p
}

/// Item names of an inventory tab: regular furniture, carpets, wall
/// decorations, and outdoor objects for every other tab number.
pub open spec fn tab_items(tab: i32) -> Seq<&'static str> {
    if tab == 0 {
        regular_names()
    } else if tab == 1 {
        carpet_name_list()
    } else if tab == 2 {
        walldecor_names()
    } else {
        outdoor_name_list()
    }
}

/// State of the inventory window.
pub struct Inventory {
    /// The window is open.
    pub open: bool,
    /// The game is in inventory mode.
    pub mode: bool,
    /// The clicked grid cell, numbered `row * INVENTORY_COLS + col`.
    pub selected: i32,
    /// The current tab.
    pub tab: i32,
}

impl Inventory {
    /// Item list position of the selected cell (rows counted from the
    /// bottom, as the grid draws them).
    pub open spec fn selected_index(self) -> int {
        grid_index((self.selected / INVENTORY_COLS) as int, (self.selected % INVENTORY_COLS) as int)
    }

    /// Closed, nothing selected, first tab.
    pub fn new() -> (r: Inventory)
        ensures
            !r.open,
            !r.mode,
            r.selected == INV_NONE,
            r.tab == 0,
    {
        Inventory { open: false, mode: false, selected: INV_NONE, tab: 0 }
    }

    /// Back to the state of `new`.
    pub fn reset(&mut self)
        ensures
            !final(self).open,
            !final(self).mode,
            final(self).selected == INV_NONE,
            final(self).tab == 0,
    {
        self.open = false;
        self.mode = false;
        self.selected = INV_NONE;
        self.tab = 0;
    }

    /// Opens the window on the first tab with no cell selected.
    pub fn enter(&mut self)
        ensures
            final(self).open,
            final(self).mode,
            final(self).selected == INV_NONE,
            final(self).tab == 0,
    {
        self.tab = 0;
        self.selected = INV_NONE;
        self.open = true;
        self.mode = true;
    }

    /// Closes the window.
    pub fn exit(&mut self)
        ensures
            !final(self).open,
            !final(self).mode,
            final(self).selected == old(self).selected,
            final(self).tab == old(self).tab,
    {
        self.open = false;
        self.mode = false;
    }

    /// Item names of the current tab.
    pub fn items(&self) -> (r: &'static [&'static str])
        ensures
            r@ == tab_items(self.tab),
    {
        if self.tab == 0 {
            inv_regular()
        } else if self.tab == 1 {
            carpet_names()
        } else if self.tab == 2 {
            inv_walldecor()
        } else {
            outdoor_names()
        }
    }

    /// Name of the item shown in the selected cell, if the cell holds one.
    pub fn selected_item_name(&self) -> (r: Option<&'static str>)
        requires
            self.selected >= 0,
        ensures
            0 <= self.selected_index() < tab_items(self.tab).len() ==> r == Some(
                tab_items(self.tab)[self.selected_index()],
            ),
            !(0 <= self.selected_index() < tab_items(self.tab).len()) ==> r is None,
    {
        let row = self.selected / INVENTORY_COLS;
        let col = self.selected % INVENTORY_COLS;
        let idx = inventory_index(row, col);
        let items = self.items();
        if idx >= 0 && (idx as usize) < items.len() {
            Some(items[idx as usize])
        } else {
            None
        }
    }

    /// Shows another tab; the selection is cleared.
    pub fn switch_tab(&mut self, new_tab: i32)
        ensures
            final(self).tab == new_tab,
            final(self).selected == INV_NONE,
            final(self).open == old(self).open,
            final(self).mode == old(self).mode,
    {
        self.tab = new_tab;
        self.selected = INV_NONE;
    }

    /// A click on grid cell (`col`, `row`): selects it when it lies in the
    /// grid, and says whether it did.
    pub fn handle_grid_click(&mut self, col: i32, row: i32) -> (b: bool)
        ensures
            b == (0 <= col < INVENTORY_COLS && 0 <= row < INVENTORY_ROWS),
            b ==> final(self).selected == row * INVENTORY_COLS + col,
            !b ==> final(self).selected == old(self).selected,
            final(self).tab == old(self).tab,
            final(self).open == old(self).open,
            final(self).mode == old(self).mode,
    {
        if col < 0 || col >= INVENTORY_COLS || row < 0 || row >= INVENTORY_ROWS {
            return false;
        }
        self.selected = row * INVENTORY_COLS + col;
        true
    }

    /// Puts the selected item into hotbar slot `act_slot` (when the hotbar
    /// has that slot) and closes the window; returns the item's name. With
    /// no item in the selected cell nothing changes.
    pub fn transfer_to_slot(&mut self, act_slot: usize, hotbar: &mut Vec<Slot>) -> (r: Option<
        &'static str,
    >)
        requires
            old(self).selected >= 0,
        ensures
            r == old(self).selected_item_name_spec(),
            r is None ==> *final(self) == *old(self) && final(hotbar)@ == old(hotbar)@,
            r matches Some(name) ==> {
                &&& !final(self).open
                &&& !final(self).mode
                &&& final(self).selected == old(self).selected
                &&& final(self).tab == old(self).tab
                &&& final(hotbar)@ == if act_slot < old(hotbar)@.len() {
                    old(hotbar)@.update(
                        act_slot as int,
                        Slot { obj: object_named(name@), active: true },
                    )
                } else {
                    old(hotbar)@
                }
            },
    {
        let name = match self.selected_item_name() {
            Some(n) => n,
            None => {
                return None;
            },
        };
        let new_slot = make_slot(name);
        if act_slot < hotbar.len() {
            hotbar.set(act_slot, new_slot);
        }
        self.exit();
        Some(name)
    }

    /// The item in the selected cell, as `selected_item_name` returns it.
    pub open spec fn selected_item_name_spec(self) -> Option<&'static str> {
        if 0 <= self.selected_index() < tab_items(self.tab).len() {
            Some(tab_items(self.tab)[self.selected_index()])
        } else {
            None
        }
    }
}

/// Makes hotbar slot `target` the active one: the slot that was active
/// (`act_slot`, when the hotbar has it) is marked inactive and `target`
/// active. Choosing the active slot again changes nothing. Returns the
/// new active slot.
pub fn select_slot(hotbar: &mut Vec<Slot>, act_slot: i32, target: i32) -> (r: i32)
    requires
        0 <= target < old(hotbar)@.len(),
    ensures
        target == act_slot ==> r == act_slot && final(hotbar)@ == old(hotbar)@,
        target != act_slot ==> {
            let off = if 0 <= act_slot < old(hotbar)@.len() {
                old(hotbar)@.update(act_slot as int, Slot { active: false, ..old(hotbar)@[act_slot as int] })
            } else {
                old(hotbar)@
            };
            &&& r == target
            &&& final(hotbar)@ == off.update(target as int, Slot { active: true, ..off[target as int] })
        },
{
    if target == act_slot {
        return act_slot;
    }
    if 0 <= act_slot && (act_slot as usize) < hotbar.len() {
        let old_slot = Slot { active: false, ..hotbar[act_slot as usize] };
        hotbar.set(act_slot as usize, old_slot);
    }
    let new_slot = Slot { active: true, ..hotbar[target as usize] };
    hotbar.set(target as usize, new_slot);
    target
}

} // verus!
