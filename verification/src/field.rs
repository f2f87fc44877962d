use vstd::prelude::*;

verus! {

/// One grid cell with its boundary flags.
///
/// The four directions are indexed 0 = west, 1 = east, 2 = north, 3 = south.
/// `walls[d]` true means the boundary in direction `d` is impassable;
/// `doors[d]` true means that boundary holds a locked door, passable once
/// unlocked with a key.
#[derive(Clone, Copy)]
pub struct Field {
    pub position: (usize, usize),
    pub exit: bool,
    pub key: bool,
    pub walls: [bool; 4],
    pub doors: [bool; 4],
}

impl Field {
    /// The blank cell: every direction walled, no door, no key, not an exit.
    pub open spec fn blank() -> Field {
        Field {
            position: (0, 0),
            exit: false,
            key: false,
            walls: [true, true, true, true],
            doors: [false, false, false, false],
        }
    }
}

impl Default for Field {
    fn default() -> (r: Field)
        ensures
            r == Field::blank(),
    {
        Field {
            position: (0, 0),
            exit: false,
            key: false,
            walls: [true, true, true, true],
            doors: [false, false, false, false],
        }
    }
}

} // verus!
