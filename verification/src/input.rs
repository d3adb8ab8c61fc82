//! Telling a click from a held mouse button.

use vstd::prelude::*;

verus! {

/// The state of the two mouse buttons: whether each went down this frame,
/// and whether it is held.
#[derive(Clone, Copy, Debug, PartialEq, Eq, Structural)]
pub struct MouseButtons {
    pub left_clicked: bool,
    pub left_held: bool,
    pub right_clicked: bool,
    pub right_held: bool,
}

/// One button after a frame in which it is `down` or not, having been `held`
/// before: a click is a press that was not held the frame before.
pub open spec fn spec_button_edge(held: bool, down: bool) -> (bool, bool) {
    if down {
        if !held { (true, true) } else { (false, true) }
    } else {
        (false, false)
    }
}

fn button_edge(held: bool, down: bool) -> (r: (bool, bool))
    ensures
        r == spec_button_edge(held, down),
{
    if down {
        if !held { (true, true) } else { (false, true) }
    } else {
        (false, false)
    }
}

impl MouseButtons {
    /// Neither button down.
    pub fn new() -> (b: MouseButtons)
        ensures
            !b.left_clicked && !b.left_held && !b.right_clicked && !b.right_held,
    {
        MouseButtons { left_clicked: false, left_held: false, right_clicked: false, right_held: false }
    }

    /// Takes in which buttons are down this frame.
    pub fn update(&mut self, left_down: bool, right_down: bool)
        ensures
            (final(self).left_clicked, final(self).left_held) == spec_button_edge(old(self).left_held, left_down),
            (final(self).right_clicked, final(self).right_held) == spec_button_edge(old(self).right_held, right_down),
    {
        let (lc, lh) = button_edge(self.left_held, left_down);
        let (rc, rh) = button_edge(self.right_held, right_down);
        self.left_clicked = lc;
        self.left_held = lh;
        self.right_clicked = rc;
        self.right_held = rh;
    }
}

/// Holding a button down clicks only once: after a frame with the button
/// down, a further frame with it still down is no click.
pub proof fn lemma_click_once(held: bool)
    ensures
        !spec_button_edge(spec_button_edge(held, true).1, true).0,
{
}

} // verus!
