//! Game logic of the "Create your Shop" sandbox: grid path finding for
//! shopper NPCs, map tokens, the object catalogue and placement rules,
//! the inventory grid, world saves and the shopper state machine.

pub mod pathfinding;
pub mod text;
pub mod map;
pub mod catalog;
pub mod inventory;
pub mod save;
pub mod scene;
pub mod config;
pub mod cells;
pub mod shop;
pub mod grid;
pub mod level;
pub mod shopper;
pub mod npc;
pub mod hud;
pub mod interact;
