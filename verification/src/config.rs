//! Debug switches read from the environment.

use vstd::prelude::*;

verus! {

/// Debug overlays that the game can draw.
pub struct DebugFlags {
    pub show_fps: bool,
    pub show_bounds: bool,
    pub show_pathfinding: bool,
}

/// A switch is on exactly when its variable holds the text `1`.
pub open spec fn flag_on(value: Option<Seq<char>>) -> bool {
    value == Some(seq!['1'])
}

/// The value of an optional string, as characters.
pub open spec fn value_of(value: Option<&str>) -> Option<Seq<char>> {
    match value {
        Some(s) => Some(s@),
        None => None,
    }
}

/// Whether an environment variable with this value (absent or not
/// readable as text: `None`) turns its switch on.
pub fn env_flag(value: Option<&str>) -> (b: bool)
    ensures
        b == flag_on(value_of(value)),
{
    match value {
        Some(s) => {
            let cs = crate::text::chars_of(s);
            if cs.len() == 1 && cs[0] == '1' {
                assert(cs@ =~= seq!['1']);
                true
            } else {
                assert(cs@ != seq!['1']);
                false
            }
        },
        None => false,
    }
}

/// The debug switches, from the values of the variables `SHOW_FPS`,
/// `SHOW_BOUNDS` and `SHOW_PATHFINDING`.
pub fn debug_flags(show_fps: Option<&str>, show_bounds: Option<&str>, show_pathfinding: Option<&str>) -> (f: DebugFlags)
    ensures
        f.show_fps == flag_on(value_of(show_fps)),
        f.show_bounds == flag_on(value_of(show_bounds)),
        f.show_pathfinding == flag_on(value_of(show_pathfinding)),
{
    DebugFlags {
        show_fps: env_flag(show_fps),
        show_bounds: env_flag(show_bounds),
        show_pathfinding: env_flag(show_pathfinding),
    }
}

} // verus!
