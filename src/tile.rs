use vstd::prelude::*;
use crate::tree::{Tree, TreeStatus, TreeType};

verus! {

/// Terrain of a tile.
#[derive(Clone, Copy, PartialEq, Eq, Structural, Debug)]
pub enum TileType {
    Grass,
    Water,
}

/// A grid cell: its coordinates, its terrain and the tree it may hold.
#[derive(Clone, Copy, PartialEq, Eq, Structural, Debug)]
pub struct Tile {
    pub x: i32,
    pub y: i32,
    pub tile_type: TileType,
    pub tile_entity: Option<Tree>,
}

impl Tile {
    /// An empty tile of the given terrain.
    pub fn new(x: i32, y: i32, tile_type: TileType) -> (r: Tile)
        ensures
            r == (Tile { x, y, tile_type, tile_entity: None }),
    {
        Tile { x, y, tile_type, tile_entity: None }
    }

    /// Puts `entity` on the tile, replacing whatever tree stood there.
    pub fn set_entity(&mut self, entity: Tree)
        ensures
            *final(self) == (Tile { tile_entity: Some(entity), ..*old(self) }),
    {
        self.tile_entity = Some(entity);
    }
}


/// The character that shows a tile: `.` empty grass, `~` water, the
/// archetype's letter for a living tree, `X` Struck, `K` Kindling, `F`
/// Burning, `#` Burned.
pub open spec fn glyph_of(t: Tile) -> char {
    match t.tile_entity {
        Some(tree) => match tree.status {
            TreeStatus::Alive => match tree.tree_type {
                TreeType::Pine => 'P',
                TreeType::Oak => 'O',
                TreeType::Birch => 'B',
                TreeType::Redwood => 'R',
            },
            TreeStatus::Struck => 'X',
            TreeStatus::Kindling => 'K',
            TreeStatus::Burning => 'F',
            TreeStatus::Burned => '#',
        },
        None => match t.tile_type {
            TileType::Water => '~',
            TileType::Grass => '.',
        },
    }
}

impl Tile {
    /// The character that shows this tile.
    pub fn glyph(&self) -> (r: char)
        ensures
            r == glyph_of(*self),
    {
        match self.tile_entity {
            Some(tree) => match tree.status {
                TreeStatus::Alive => match tree.tree_type {
                    TreeType::Pine => 'P',
                    TreeType::Oak => 'O',
                    TreeType::Birch => 'B',
                    TreeType::Redwood => 'R',
                },
                TreeStatus::Struck => 'X',
                TreeStatus::Kindling => 'K',
                TreeStatus::Burning => 'F',
                TreeStatus::Burned => '#',
            },
            None => match self.tile_type {
                TileType::Water => '~',
                TileType::Grass => '.',
            },
        }
    }
}

} // verus!
