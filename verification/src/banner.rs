//! The banner that announces whose turn it is and who won, and how it fades.

use vstd::prelude::*;
use crate::team::Team;

verus! {

/// How long, in milliseconds, a banner stays fully shown before it fades.
pub const BANNER_TIMEOUT: u64 = 1500;
/// Opacity of a freshly shown banner.
pub const BANNER_ALPHA: u8 = 250;
/// How much opacity a banner loses per faded frame.
pub const BANNER_FADE_STEP: u8 = 25;

pub const BANNER_TURN_P1: &'static str = "p1_banner";
pub const BANNER_TURN_P2: &'static str = "p2_banner";
pub const BANNER_TURN_BARB: &'static str = "b_banner";
pub const BANNER_WIN_P1: &'static str = "p1_win_banner";
pub const BANNER_WIN_P2: &'static str = "p2_win_banner";

/// A color with its opacity.
#[derive(Clone, Copy, Debug, PartialEq, Eq, Structural)]
pub struct Rgba {
    pub r: u8,
    pub g: u8,
    pub b: u8,
    pub a: u8,
}

pub open spec fn rgba(r: u8, g: u8, b: u8, a: u8) -> Rgba {
    Rgba { r, g, b, a }
}

/// The background color of the banner with key `key`: blue for the player's
/// banners, red for the enemy's, brown for the barbarians', blue otherwise.
pub open spec fn spec_banner_color(key: Seq<char>) -> Rgba {
    if key == BANNER_TURN_P2@ || key == BANNER_WIN_P2@ {
        rgba(207, 21, 24, BANNER_ALPHA)
    } else if key == BANNER_TURN_BARB@ {
        rgba(163, 96, 30, BANNER_ALPHA)
    } else {
        rgba(0, 89, 178, BANNER_ALPHA)
    }
}

/// The key of the banner announcing `team`'s turn.
pub open spec fn spec_turn_banner_key(team: Team) -> Seq<char> {
    match team {
        Team::Player => BANNER_TURN_P1@,
        Team::Enemy => BANNER_TURN_P2@,
        Team::Barbarians => BANNER_TURN_BARB@,
    }
}

/// Whether two strings hold the same characters.
fn str_eq(a: &str, b: &str) -> (r: bool)
    ensures
        r == (a@ == b@),
{
    a.to_owned() == b.to_owned()
}

/// The banner shown across the screen. When it is shown it is fully opaque;
/// once it has been up for the timeout it fades step by step until it is hidden.
/// When it was first drawn is kept by the renderer beside it.
pub struct Banner {
    /// Which text the banner shows.
    pub banner_key: String,
    pub current_banner_transparency: u8,
    pub banner_colors: Rgba,
    pub banner_visible: bool,
}

impl Banner {
    /// The opacity is a whole number of fade steps.
    pub open spec fn wf(&self) -> bool {
        self.current_banner_transparency % BANNER_FADE_STEP == 0
    }

    /// The banner of the player's first turn, shown.
    pub fn new() -> (b: Banner)
        ensures
            b.wf(),
            b.banner_key@ == BANNER_TURN_P1@,
            b.current_banner_transparency == BANNER_ALPHA,
            b.banner_colors == rgba(0, 89, 178, 250),
            b.banner_colors == spec_banner_color(BANNER_TURN_P1@),
            b.banner_visible,
    {
        proof {
            reveal_strlit("p1_banner");
            reveal_strlit("p2_banner");
            reveal_strlit("b_banner");
            reveal_strlit("p2_win_banner");
            assert(BANNER_TURN_P1@[1] != BANNER_TURN_P2@[1]);
            assert(BANNER_TURN_P1@.len() != BANNER_WIN_P2@.len());
            assert(BANNER_TURN_P1@[0] != BANNER_TURN_BARB@[0]);
        }
        Banner {
            banner_key: BANNER_TURN_P1.to_owned(),
            current_banner_transparency: BANNER_ALPHA,
            banner_colors: Rgba { r: 0, g: 89, b: 178, a: 250 },
            banner_visible: true,
        }
    }

    /// Shows the banner announcing `banner_team`'s turn.
    pub fn show_turn(&mut self, banner_team: Team)
        ensures
            final(self).wf(),
            final(self).banner_key@ == spec_turn_banner_key(banner_team),
            final(self).banner_colors == spec_banner_color(spec_turn_banner_key(banner_team)),
            final(self).current_banner_transparency == BANNER_ALPHA,
            final(self).banner_visible,
    {
        self.show(match banner_team {
            Team::Player => BANNER_TURN_P1,
            Team::Enemy => BANNER_TURN_P2,
            Team::Barbarians => BANNER_TURN_BARB,
        });
    }

    /// Shows the banner with key `banner_key`, fully opaque, in its color.
    pub fn show(&mut self, banner_key: &str)
        ensures
            final(self).wf(),
            final(self).banner_key@ == banner_key@,
            final(self).banner_colors == spec_banner_color(banner_key@),
            final(self).current_banner_transparency == BANNER_ALPHA,
            final(self).banner_visible,
    {
        self.banner_colors = if str_eq(banner_key, BANNER_TURN_P2) || str_eq(banner_key, BANNER_WIN_P2) {
            Rgba { r: 207, g: 21, b: 24, a: BANNER_ALPHA }
        } else if str_eq(banner_key, BANNER_TURN_BARB) {
            Rgba { r: 163, g: 96, b: 30, a: BANNER_ALPHA }
        } else {
            Rgba { r: 0, g: 89, b: 178, a: BANNER_ALPHA }
        };
        self.banner_key = banner_key.to_owned();
        self.current_banner_transparency = BANNER_ALPHA;
        self.banner_visible = true;
    }

    /// Starts a frame: a banner that has faded out is hidden and not drawn;
    /// otherwise its color takes its current opacity and it is drawn.
    pub fn prepare_frame(&mut self) -> (drawn: bool)
        ensures
            drawn == (old(self).current_banner_transparency != 0),
            drawn ==> *final(self) == (Banner {
                banner_colors: Rgba { a: old(self).current_banner_transparency, ..old(self).banner_colors },
                ..*old(self)
            }),
            !drawn ==> *final(self) == (Banner { banner_visible: false, ..*old(self) }),
    {
        if self.current_banner_transparency == 0 {
            self.banner_visible = false;
            return false;
        }
        self.banner_colors.a = self.current_banner_transparency;
        true
    }

    /// After the first frame of a fully opaque banner it starts to fade by one
    /// step; the caller then starts timing how long it has been up.
    pub fn start_fade(&mut self) -> (restart_clock: bool)
        requires
            old(self).wf(),
        ensures
            final(self).wf(),
            restart_clock == (old(self).current_banner_transparency == BANNER_ALPHA),
            restart_clock ==> *final(self) == (Banner {
                current_banner_transparency: (BANNER_ALPHA - BANNER_FADE_STEP) as u8,
                ..*old(self)
            }),
            !restart_clock ==> *final(self) == *old(self),
    {
        if self.current_banner_transparency == BANNER_ALPHA {
            self.current_banner_transparency = BANNER_ALPHA - BANNER_FADE_STEP;
            true
        } else {
            false
        }
    }

    /// Once the banner has been up for the timeout, it fades by one step per frame.
    pub fn fade_step(&mut self, timed_out: bool)
        requires
            old(self).wf(),
        ensures
            final(self).wf(),
            (timed_out && old(self).current_banner_transparency != 0) ==> *final(self) == (Banner {
                current_banner_transparency: (old(self).current_banner_transparency - BANNER_FADE_STEP) as u8,
                ..*old(self)
            }),
            !(timed_out && old(self).current_banner_transparency != 0) ==> *final(self) == *old(self),
    {
        if timed_out && self.current_banner_transparency != 0 {
            self.current_banner_transparency = self.current_banner_transparency - BANNER_FADE_STEP;
        }
    }
}

} // verus!
