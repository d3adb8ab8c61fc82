//! Map tiles: their terrain, structure and the team of the unit standing on them.

use vstd::prelude::*;
use crate::team::Team;

verus! {

/// Buildings a tile can hold.
#[derive(Clone, Copy, Debug, PartialEq, Eq, Structural)]
pub enum Structure {
    Camp,
    PCastle,
    ECastle,
}

/// One tile of the map. The texture the tile is drawn with is kept by the
/// renderer beside the tile, under the same key.
#[derive(Clone, Copy, Debug)]
pub struct Tile {
    pub x: u32,
    pub y: u32,
    pub is_traversable: bool,
    /// Archers and mages can attack over rivers and through trees.
    pub can_attack_through: bool,
    pub contained_unit_team: Option<Team>,
    pub contained_structure: Option<Structure>,
}

/// Whether a unit may move onto a tile: it must be free and traversable.
pub open spec fn spec_unit_can_move_here(t: Tile) -> bool {
    t.contained_unit_team is None && t.is_traversable
}

impl Tile {
    pub fn new(
        x: u32,
        y: u32,
        is_traversable: bool,
        can_attack_through: bool,
        contained_unit_team: Option<Team>,
        contained_structure: Option<Structure>,
    ) -> (t: Tile)
        ensures
            t == (Tile {
                x,
                y,
                is_traversable,
                can_attack_through,
                contained_unit_team,
                contained_structure,
            }),
    {
        Tile { x, y, is_traversable, can_attack_through, contained_unit_team, contained_structure }
    }

    pub fn update_team(&mut self, new_team: Option<Team>)
        ensures
            *final(self) == (Tile { contained_unit_team: new_team, ..*old(self) }),
    {
        self.contained_unit_team = new_team;
    }

    pub fn unit_can_move_here(&self) -> (b: bool)
        ensures
            b == spec_unit_can_move_here(*self),
    {
        match &self.contained_unit_team {
            Some(_) => false,
            None => self.is_traversable,
        }
    }
}

} // verus!
