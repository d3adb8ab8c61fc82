//! The scroll that opens beside a selected unit (or in the middle of the
//! screen when a new unit is chosen) and what a click on it selects. How far
//! its opening animation has got, and its texture, are kept by the renderer.

use vstd::prelude::*;
use crate::player_state::PlayerAction;
use crate::unit::Unit;
use crate::pixel_coordinates::TILE_SIZE;

verus! {

/// Width of the camera's view, in pixels.
pub const CAM_W: u32 = 1280;
/// Height of the camera's view, in pixels.
pub const CAM_H: u32 = 720;

/// Rectangle coordinates are kept within half the range of `i32`.
pub open spec fn spec_max_int_value() -> int {
    0x3fff_ffff
}

/// A rectangle's position, kept within half the range of `i32`.
pub open spec fn spec_clamp_position(v: i32) -> int {
    if v > spec_max_int_value() {
        spec_max_int_value()
    } else if v < -0x4000_0000 {
        -0x4000_0000
    } else {
        v as int
    }
}

/// A rectangle's size: at least one, at most half the range of `i32`.
pub open spec fn spec_clamp_size(v: u32) -> int {
    if v == 0 {
        1
    } else if v > spec_max_int_value() {
        spec_max_int_value()
    } else {
        v as int
    }
}

/// Whether the rectangle at (`x`, `y`) of `w` by `h` pixels, its position
/// and size clamped as the rendering library clamps them, holds point `p`:
/// its left and top edges are inside, its right and bottom edges outside.
pub open spec fn spec_rect_contains(x: i32, y: i32, w: u32, h: u32, p: (i32, i32)) -> bool {
    let left = spec_clamp_position(x);
    let top = spec_clamp_position(y);
    &&& left <= p.0 < left + spec_clamp_size(w)
    &&& top <= p.1 < top + spec_clamp_size(h)
}

fn clamp_position(v: i32) -> (r: i32)
    ensures
        r == spec_clamp_position(v),
{
    if v > 0x3fff_ffff {
        0x3fff_ffff
    } else if v < -0x4000_0000 {
        -0x4000_0000
    } else {
        v
    }
}

fn clamp_size(v: u32) -> (r: i32)
    ensures
        r == spec_clamp_size(v),
{
    if v == 0 {
        1
    } else if v > 0x3fff_ffff {
        0x3fff_ffff
    } else {
        v as i32
    }
}

/// Whether the rectangle at (`x`, `y`) of `w` by `h` pixels holds point `p`.
pub fn rect_contains(x: i32, y: i32, w: u32, h: u32, p: (i32, i32)) -> (b: bool)
    ensures
        b == spec_rect_contains(x, y, w, h, p),
{
    let left = clamp_position(x);
    let top = clamp_position(y);
    let right = left + clamp_size(w);
    let bottom = top + clamp_size(h);
    p.0 >= left && p.0 < right && p.1 >= top && p.1 < bottom
}

/// One line of the scroll, and whether it can be chosen.
#[derive(Clone, Copy, Debug)]
pub struct SelectOption {
    pub text: &'static str,
    pub valid: bool,
}

/// The scroll: its top left corner on the map, its lines, whether its
/// opening animation has finished, and whether it has been told to close.
pub struct UnitInterface {
    pub x: i32,
    pub y: i32,
    pub txt: Vec<SelectOption>,
    pub opened: bool,
    pub closing: bool,
}

/// The top left corner of the scroll beside a unit at (`ux`, `uy`): two
/// tiles to its left and one up, or to its right or level with it at the
/// map's left and top edges.
pub open spec fn spec_unit_scroll_corner(ux: u32, uy: u32) -> (i32, i32) {
    let x_off: int = if ux < 2 { 1 } else { -2 };
    let y_off: int = if uy < 1 { 0 } else { -1 };
    (((ux + x_off) * TILE_SIZE) as i32, ((uy + y_off) * TILE_SIZE) as i32)
}

impl UnitInterface {
    /// A scroll with the lines `t`, all of them valid, opening with its top
    /// left corner two tiles left of and one up from matrix indices (`i`, `j`).
    pub fn new(i: u32, j: u32, t: Vec<&'static str>) -> (ui: UnitInterface)
        requires
            2 <= j,
            1 <= i,
            (j - 2) * TILE_SIZE <= i32::MAX,
            (i - 1) * TILE_SIZE <= i32::MAX,
        ensures
            ui.x == (j - 2) * TILE_SIZE,
            ui.y == (i - 1) * TILE_SIZE,
            ui.txt@.len() == t@.len(),
            forall|k: int| 0 <= k < t@.len() ==> (#[trigger] ui.txt@[k]).text == t@[k] && ui.txt@[k].valid,
            !ui.opened,
            !ui.closing,
    {
        let mut txt: Vec<SelectOption> = Vec::new();
        let mut k: usize = 0;
        while k < t.len()
            invariant
                k <= t@.len(),
                txt@.len() == k,
                forall|m: int| 0 <= m < k ==> (#[trigger] txt@[m]).text == t@[m] && txt@[m].valid,
            decreases t@.len() - k,
        {
            txt.push(SelectOption { text: t[k], valid: true });
            k += 1;
        }
        UnitInterface { x: ((j - 2) * TILE_SIZE) as i32, y: ((i - 1) * TILE_SIZE) as i32, txt, opened: false, closing: false }
    }

    /// The scroll of a selected unit: "Move", valid if it has not moved, and
    /// "Attack", valid if it has not attacked.
    pub fn from_unit(unit: &Unit) -> (ui: UnitInterface)
        requires
            unit.x < 0x3ff_ffff,
            unit.y < 0x3ff_ffff,
        ensures
            (ui.x, ui.y) == spec_unit_scroll_corner(unit.x, unit.y),
            ui.txt@.len() == 2,
            ui.txt@[0].text@ == "Move"@,
            ui.txt@[0].valid == !unit.has_moved,
            ui.txt@[1].text@ == "Attack"@,
            ui.txt@[1].valid == !unit.has_attacked,
            !ui.opened,
            !ui.closing,
    {
        let x_off: i32 = if unit.x < 2 { 1 } else { -2 };
        let y_off: i32 = if unit.y < 1 { 0 } else { -1 };
        let mut txt: Vec<SelectOption> = Vec::new();
        txt.push(SelectOption { text: "Move", valid: !unit.has_moved });
        txt.push(SelectOption { text: "Attack", valid: !unit.has_attacked });
        UnitInterface {
            x: (unit.x as i32 + x_off) * (TILE_SIZE as i32),
            y: (unit.y as i32 + y_off) * (TILE_SIZE as i32),
            txt,
            opened: false,
            closing: false,
        }
    }

    /// The scroll for choosing a new unit, in the middle of the camera's view
    /// at (`cam_x`, `cam_y`) (both at most zero): "Ranger", "Melee", "Mage".
    pub fn from_conversion(cam_x: i32, cam_y: i32) -> (ui: UnitInterface)
        requires
            -cam_x + CAM_W / 2 <= i32::MAX,
            -cam_y + CAM_H / 2 <= i32::MAX,
            cam_x > i32::MIN,
            cam_y > i32::MIN,
        ensures
            ui.x == -cam_x + CAM_W / 2,
            ui.y == -cam_y + CAM_H / 2,
            ui.txt@.len() == 3,
            ui.txt@[0].text@ == "Ranger"@,
            ui.txt@[1].text@ == "Melee"@,
            ui.txt@[2].text@ == "Mage"@,
            ui.txt@[0].valid && ui.txt@[1].valid && ui.txt@[2].valid,
            !ui.opened,
            !ui.closing,
    {
        let mut txt: Vec<SelectOption> = Vec::new();
        txt.push(SelectOption { text: "Ranger", valid: true });
        txt.push(SelectOption { text: "Melee", valid: true });
        txt.push(SelectOption { text: "Mage", valid: true });
        UnitInterface { x: -cam_x + (CAM_W / 2) as i32, y: -cam_y + (CAM_H / 2) as i32, txt, opened: false, closing: false }
    }

    /// Starts closing the scroll.
    pub fn animate_close(&mut self)
        ensures
            final(self).closing,
            final(self).x == old(self).x,
            final(self).y == old(self).y,
            final(self).txt == old(self).txt,
            final(self).opened == old(self).opened,
    {
        self.closing = true;
    }

    /// Whether the scroll, 64 pixels square, holds point (`x`, `y`).
    pub fn point_in_bounds(&self, x: u32, y: u32) -> (b: bool)
        ensures
            b == spec_rect_contains(self.x, self.y, 64, 64, (x as i32, y as i32)),
    {
        rect_contains(self.x, self.y, 64, 64, (x as i32, y as i32))
    }

    /// What a click at (`x`, `y`) on a unit's scroll selects: off the scroll,
    /// nothing (the unit is let go); before it has opened, or on its edges or
    /// an invalid line, the scroll stays; on "Move" or "Attack", that action.
    pub fn get_click_selection(&self, x: u32, y: u32) -> (a: PlayerAction)
        requires
            self.txt@.len() >= 2,
            self.x <= i32::MAX - 7,
            self.y <= i32::MAX - 32,
        ensures
            a == spec_click_selection(*self, x, y),
    {
        if !self.point_in_bounds(x, y) {
            return PlayerAction::Default;
        }
        if !self.opened {
            return PlayerAction::ChoosingUnitAction;
        }
        let p = (x as i32, y as i32);
        if rect_contains(self.x + 7, self.y + 16, 55, 16, p) {
            if self.txt[0].valid { PlayerAction::MovingUnit } else { PlayerAction::ChoosingUnitAction }
        } else if rect_contains(self.x + 7, self.y + 32, 55, 16, p) {
            if self.txt[1].valid { PlayerAction::AttackingUnit } else { PlayerAction::ChoosingUnitAction }
        } else {
            PlayerAction::ChoosingUnitAction
        }
    }

    /// What a click at (`x`, `y`) on the scroll for choosing a new unit
    /// selects: a line once the scroll has opened, else nothing new.
    pub fn get_choose_unit_click_selection(&self, x: u32, y: u32) -> (a: PlayerAction)
        requires
            self.x <= i32::MAX - 7,
            self.y <= i32::MAX - 48,
        ensures
            a == spec_choose_unit_click_selection(*self, x, y),
    {
        if !self.opened {
            return PlayerAction::ChoosingNewUnit;
        }
        let p = (x as i32, y as i32);
        if rect_contains(self.x + 7, self.y + 16, 55, 16, p) {
            PlayerAction::ChosenRanger
        } else if rect_contains(self.x + 7, self.y + 32, 55, 16, p) {
            PlayerAction::ChosenMelee
        } else if rect_contains(self.x + 7, self.y + 48, 55, 16, p) {
            PlayerAction::ChosenMage
        } else {
            PlayerAction::ChoosingNewUnit
        }
    }
}

/// What a click at (`x`, `y`) on the unit scroll `ui` selects.
pub open spec fn spec_click_selection(ui: UnitInterface, x: u32, y: u32) -> PlayerAction {
    let p = (x as i32, y as i32);
    if !spec_rect_contains(ui.x, ui.y, 64, 64, p) {
        PlayerAction::Default
    } else if !ui.opened {
        PlayerAction::ChoosingUnitAction
    } else if spec_rect_contains((ui.x + 7) as i32, (ui.y + 16) as i32, 55, 16, p) {
        if ui.txt@[0].valid { PlayerAction::MovingUnit } else { PlayerAction::ChoosingUnitAction }
    } else if spec_rect_contains((ui.x + 7) as i32, (ui.y + 32) as i32, 55, 16, p) {
        if ui.txt@[1].valid { PlayerAction::AttackingUnit } else { PlayerAction::ChoosingUnitAction }
    } else {
        PlayerAction::ChoosingUnitAction
    }
}

/// What a click at (`x`, `y`) on the new-unit scroll `ui` selects.
pub open spec fn spec_choose_unit_click_selection(ui: UnitInterface, x: u32, y: u32) -> PlayerAction {
    let p = (x as i32, y as i32);
    if !ui.opened {
        PlayerAction::ChoosingNewUnit
    } else if spec_rect_contains((ui.x + 7) as i32, (ui.y + 16) as i32, 55, 16, p) {
        PlayerAction::ChosenRanger
    } else if spec_rect_contains((ui.x + 7) as i32, (ui.y + 32) as i32, 55, 16, p) {
        PlayerAction::ChosenMelee
    } else if spec_rect_contains((ui.x + 7) as i32, (ui.y + 48) as i32, 55, 16, p) {
        PlayerAction::ChosenMage
    } else {
        PlayerAction::ChoosingNewUnit
    }
}

} // verus!
