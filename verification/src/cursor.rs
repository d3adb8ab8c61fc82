//! The cursor that marks the unit under the mouse, with its health. Its
//! texture is kept by the renderer.

use vstd::prelude::*;
use crate::pixel_coordinates::PixelCoordinates;
use crate::team::Team;
use crate::unit::Unit;

verus! {

/// Width in pixels of the health bar drawn above a unit.
pub const HEALTH_WIDTH: u32 = 5;

pub struct Cursor {
    pub x: i32,
    pub y: i32,
    pub is_visible: bool,
    /// The team, health and maximum health of the unit marked.
    pub unit_team: Team,
    pub unit_hp: u32,
    pub unit_max_hp: u32,
}

impl Cursor {
    /// A hidden cursor.
    pub fn new() -> (c: Cursor)
        ensures
            c.x == -1 && c.y == -1,
            !c.is_visible,
            c.unit_team == Team::Player,
            c.unit_hp == 0 && c.unit_max_hp == 0,
    {
        Cursor { x: -1, y: -1, is_visible: false, unit_team: Team::Player, unit_hp: 0, unit_max_hp: 0 }
    }

    /// Marks `unit`, drawn at `coordinates`.
    pub fn set_cursor(&mut self, coordinates: &PixelCoordinates, unit: &Unit)
        ensures
            final(self).x == coordinates.x as i32,
            final(self).y == coordinates.y as i32,
            final(self).is_visible,
            final(self).unit_team == unit.team,
            final(self).unit_hp == unit.hp,
            final(self).unit_max_hp == unit.max_hp,
    {
        self.x = coordinates.x as i32;
        self.y = coordinates.y as i32;
        self.is_visible = true;
        self.unit_team = unit.team;
        self.unit_hp = unit.hp;
        self.unit_max_hp = unit.max_hp;
    }

    /// Hides the cursor.
    pub fn hide_cursor(&mut self)
        ensures
            final(self).x == -1 && final(self).y == -1,
            !final(self).is_visible,
            final(self).unit_team == old(self).unit_team,
            final(self).unit_hp == old(self).unit_hp,
            final(self).unit_max_hp == old(self).unit_max_hp,
    {
        self.x = -1;
        self.y = -1;
        self.is_visible = false;
    }
}

} // verus!
