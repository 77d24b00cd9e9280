use vstd::prelude::*;
use crate::random::random_in;

verus! {

/// Where a tree stands in its life: `Struck`, `Kindling` and `Burning` only
/// occur while a strike is being played out, `Burned` is terminal.
#[derive(Clone, Copy, PartialEq, Eq, Structural, Debug)]
pub enum TreeStatus {
    Alive,
    Struck,
    Kindling,
    Burning,
    Burned,
}

/// The four archetypes; each fixes flammability and burn time.
#[derive(Clone, Copy, PartialEq, Eq, Structural, Debug)]
pub enum TreeType {
    Pine,
    Oak,
    Birch,
    Redwood,
}

/// A tree. `flammability` is the chance, in percent, that it catches fire
/// when a neighbour burns; `burn_time` is the number of ticks it burns.
#[derive(Clone, Copy, PartialEq, Eq, Structural, Debug)]
pub struct Tree {
    pub status: TreeStatus,
    pub tree_type: TreeType,
    pub flammability: u32,
    pub burn_time: u32,
}

/// Ignition chance in percent of each archetype.
pub open spec fn flammability_of(t: TreeType) -> u32 {
    match t {
        TreeType::Pine => 90,
        TreeType::Birch => 70,
        TreeType::Oak => 50,
        TreeType::Redwood => 30,
    }
}

/// Burn duration in ticks of each archetype.
pub open spec fn burn_time_of(t: TreeType) -> u32 {
    match t {
        TreeType::Pine => 1,
        TreeType::Birch => 2,
        TreeType::Oak => 3,
        TreeType::Redwood => 4,
    }
}

/// The archetype with index `i` in the order Pine, Oak, Birch, Redwood.
pub open spec fn type_of_index(i: u32) -> TreeType {
    if i == 0 {
        TreeType::Pine
    } else if i == 1 {
        TreeType::Oak
    } else if i == 2 {
        TreeType::Birch
    } else {
        TreeType::Redwood
    }
}

impl Tree {
    /// Flammability and burn time are those of the tree's archetype.
    pub open spec fn wf(&self) -> bool {
        &&& self.flammability == flammability_of(self.tree_type)
        &&& self.burn_time == burn_time_of(self.tree_type)
    }

    /// A living tree of the given archetype.
    pub fn of_type(tree_type: TreeType) -> (r: Tree)
        ensures
            r.status == TreeStatus::Alive,
            r.tree_type == tree_type,
            r.wf(),
    {
        let (flammability, burn_time): (u32, u32) = match tree_type {
            TreeType::Pine => (90, 1),
            TreeType::Oak => (50, 3),
            TreeType::Birch => (70, 2),
            TreeType::Redwood => (30, 4),
        };
        Tree { status: TreeStatus::Alive, tree_type, flammability, burn_time }
    }

    /// A living tree whose archetype is drawn uniformly among the four.
    pub fn new() -> (r: Tree)
        ensures
            r.status == TreeStatus::Alive,
            r.wf(),
    {
        let i = random_in(0, 4);
        Tree::from_draw(i)
    }

    /// The living tree that a draw `i` in `0..4` selects.
    pub fn from_draw(i: u32) -> (r: Tree)
        requires
            i < 4,
        ensures
            r.status == TreeStatus::Alive,
            r.tree_type == type_of_index(i),
            r.wf(),
    {
        let tree_type = if i == 0 {
            TreeType::Pine
        } else if i == 1 {
            TreeType::Oak
        } else if i == 2 {
            TreeType::Birch
        } else {
            TreeType::Redwood
        };
        Tree::of_type(tree_type)
    }

    /// The same tree in another status.
    pub fn with_status(&self, status: TreeStatus) -> (r: Tree)
        ensures
            r == (Tree { status, ..*self }),
    {
        Tree { status, ..*self }
    }
}

} // verus!
