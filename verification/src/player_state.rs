//! Whose turn it is and what the local player is doing.

use vstd::prelude::*;
use crate::team::Team;

verus! {

/// What the local player's clicks currently mean.
#[derive(Clone, Copy, Debug, PartialEq, Eq, Structural)]
pub enum PlayerAction {
    Default,
    ChoosingUnitAction,
    MovingUnit,
    AttackingUnit,
    ChoosingNewUnit,
    ChoosePrimer,
    ChosenRanger,
    ChosenMelee,
    ChosenMage,
}

/// The turn order: player, then enemy, then barbarians, then player again.
pub open spec fn spec_next_team(t: Team) -> Team {
    match t {
        Team::Player => Team::Enemy,
        Team::Enemy => Team::Barbarians,
        Team::Barbarians => Team::Player,
    }
}

pub struct PlayerState {
    pub team: Team,
    pub current_turn: Team,
    /// Matrix coordinates of the selected unit; both are -1 when none is selected.
    pub active_unit_i: i32,
    pub active_unit_j: i32,
    pub current_player_action: PlayerAction,
}

impl PlayerState {
    /// A fresh state for a player on `team`: the player side moves first and nothing is selected.
    pub fn new(team: Team) -> (s: PlayerState)
        ensures
            s.team == team,
            s.current_turn == Team::Player,
            s.active_unit_i == -1,
            s.active_unit_j == -1,
            s.current_player_action == PlayerAction::Default,
    {
        PlayerState {
            team,
            current_turn: Team::Player,
            active_unit_i: -1,
            active_unit_j: -1,
            current_player_action: PlayerAction::Default,
        }
    }

    /// Passes the turn to the next team and returns that team.
    pub fn advance_turn(&mut self) -> (t: Team)
        ensures
            t == spec_next_team(old(self).current_turn),
            *final(self) == (PlayerState { current_turn: t, ..*old(self) }),
    {
        match self.current_turn {
            Team::Player => self.current_turn = Team::Enemy,
            Team::Enemy => self.current_turn = Team::Barbarians,
            Team::Barbarians => self.current_turn = Team::Player,
        }
        self.current_turn
    }

    /// Whether it is this player's turn.
    pub fn is_turn(&self) -> (b: bool)
        ensures
            b == (self.current_turn == self.team),
    {
        self.current_turn == self.team
    }
}

/// After three turns the same team is to move again, and the two teams in
/// between are the other two.
pub proof fn lemma_turn_cycle(t: Team)
    ensures
        spec_next_team(spec_next_team(spec_next_team(t))) == t,
        spec_next_team(t) != t,
        spec_next_team(spec_next_team(t)) != t,
        spec_next_team(spec_next_team(t)) != spec_next_team(t),
{
}

} // verus!
