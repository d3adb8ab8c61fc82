//! Converting between positions on the tile grid and pixels.

use vstd::prelude::*;

verus! {

/// The side of a tile, in pixels.
pub const TILE_SIZE: u32 = 32;

/// A point in pixels, from the top left corner of the map.
#[derive(Clone, Copy, Debug, PartialEq, Eq, Structural)]
pub struct PixelCoordinates {
    pub x: u32,
    pub y: u32,
}

impl PixelCoordinates {
    /// The top left corner of the tile in row `i`, column `j`.
    pub fn from_matrix_indices(i: u32, j: u32) -> (p: PixelCoordinates)
        requires
            i * TILE_SIZE <= u32::MAX,
            j * TILE_SIZE <= u32::MAX,
        ensures
            p.x == j * TILE_SIZE,
            p.y == i * TILE_SIZE,
    {
        PixelCoordinates { x: j * TILE_SIZE, y: i * TILE_SIZE }
    }

    /// The (row, column) of the tile under the point (`x`, `y`) of the
    /// screen, when the camera is scrolled by (`cam_x`, `cam_y`).
    pub fn matrix_indices_from_pixel(x: u32, y: u32, cam_x: u32, cam_y: u32) -> (r: (u32, u32))
        requires
            y + cam_y <= u32::MAX,
            x + cam_x <= u32::MAX,
        ensures
            r == (((y + cam_y) / TILE_SIZE as int) as u32, ((x + cam_x) / TILE_SIZE as int) as u32),
    {
        let i = (y + cam_y) / TILE_SIZE;
        let j = (x + cam_x) / TILE_SIZE;
        (i, j)
    }
}

/// `v` held between `lo` and `hi`.
pub open spec fn spec_clamp(v: int, lo: int, hi: int) -> int {
    if v < lo { lo } else if v > hi { hi } else { v }
}

/// The camera's offset along one axis after the mouse moved from `mouse_old`
/// to `mouse` with the right button held: it follows the mouse by at most a
/// tile per frame, and stays where the camera area of length `cam_len` still
/// covers a window of length `win_len` (offsets from `win_len - cam_len` up to 0).
pub fn dragged_camera(cam: i32, cam_len: i32, win_len: i32, mouse_old: i32, mouse: i32) -> (r: i32)
    requires
        i32::MIN <= win_len - cam_len <= 0,
    ensures
        r == spec_clamp(cam - spec_clamp(mouse_old - mouse, -(TILE_SIZE as int), TILE_SIZE as int),
            win_len - cam_len, 0),
{
    let t: i64 = TILE_SIZE as i64;
    let raw: i64 = mouse_old as i64 - mouse as i64;
    let d: i64 = if raw < -t { -t } else if raw > t { t } else { raw };
    let moved: i64 = cam as i64 - d;
    let lo: i64 = win_len as i64 - cam_len as i64;
    let r: i64 = if moved < lo { lo } else if moved > 0 { 0 } else { moved };
    r as i32
}

} // verus!
