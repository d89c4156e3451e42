# cys

The game logic of "Create your Shop", a small shop-building sandbox, as a
Verus-verified library, with a window-less command-line driver.

- `src/` is the library. Its functions are verified by Verus against their
  `requires`/`ensures` contracts, except two small wrappers of std string
  functions (`push_char`, `decode_lossy` in `text`), whose contracts are
  trusted:
  - `pathfinding`: cells, walkable sets and an A* search whose result is a
    shortest walk;
  - `text`, `hud`: string helpers and the texts of the display;
  - `map`, `grid`: the map file's tokens, the tile grid and how building
    and removing floor changes it;
  - `catalog`, `inventory`: the objects that can be built, their prices,
    the hotbar and the inventory window;
  - `cells`, `shop`: the shop's state, placement rules, clicks on objects,
    food stock and textures;
  - `interact`: what a click does in each mode;
  - `level`: keeping and rebuilding levels (shop floor and basement);
  - `shopper`, `npc`: the decisions of shoppers and townsfolk;
  - `save`, `scene`, `config`: the world list, scene switching and debug
    flags.
- `app/` is ordinary Rust around it: reading map files, the save files in
  JSON, timers and movement in floating point, and a loop reading
  commands from standard input.
- `tests/` exercises the library through its public interface.
