//! The three sides of a game and how they are named on the wire.

use vstd::prelude::*;
use crate::codec::{EVENT_ID_ENEMY, EVENT_ID_PLAYER, EVENT_ID_BARBARIAN};
use crate::player_state::PlayerState;

verus! {

broadcast use vstd::string::to_string_from_display_ensures_for_str;

/// A side of the game. In multiplayer the shared state uses `Player` for the
/// host and `Enemy` for the peer.
#[derive(Clone, Copy, Debug, PartialEq, Eq, Structural)]
pub enum Team {
    Player,
    Enemy,
    Barbarians,
}

/// The team as seen from a client playing `me`: the peer sees player and
/// enemy swapped, barbarians stay barbarians.
pub open spec fn spec_as_client(t: Team, me: Team) -> Team {
    if me == Team::Enemy {
        match t {
            Team::Player => Team::Enemy,
            Team::Enemy => Team::Player,
            Team::Barbarians => Team::Barbarians,
        }
    } else {
        t
    }
}

/// The identifier a team is sent as.
pub open spec fn spec_team_id(t: Team) -> u8 {
    match t {
        Team::Player => EVENT_ID_PLAYER,
        Team::Enemy => EVENT_ID_ENEMY,
        Team::Barbarians => EVENT_ID_BARBARIAN,
    }
}

/// The team an identifier stands for, if any.
pub open spec fn spec_team_from_id(id: u8) -> Option<Team> {
    if id == EVENT_ID_PLAYER {
        Some(Team::Player)
    } else if id == EVENT_ID_ENEMY {
        Some(Team::Enemy)
    } else if id == EVENT_ID_BARBARIAN {
        Some(Team::Barbarians)
    } else {
        None
    }
}

/// The lower-case name of a team.
pub open spec fn spec_team_name(t: Team) -> Seq<char> {
    match t {
        Team::Player => "player"@,
        Team::Enemy => "enemy"@,
        Team::Barbarians => "barbarians"@,
    }
}

impl Team {
    /// Swaps player and enemy when invoked on the peer client.
    pub fn as_client(self, player_state: &PlayerState) -> (t: Team)
        ensures
            t == spec_as_client(self, player_state.team),
    {
        if player_state.team == Team::Enemy {
            match self {
                Team::Player => Team::Enemy,
                Team::Enemy => Team::Player,
                _ => self,
            }
        } else {
            self
        }
    }

    pub fn to_id(self) -> (id: u8)
        ensures
            id == spec_team_id(self),
    {
        match self {
            Team::Player => EVENT_ID_PLAYER,
            Team::Enemy => EVENT_ID_ENEMY,
            Team::Barbarians => EVENT_ID_BARBARIAN,
        }
    }

    /// The team with the given identifier, or an error for an unknown one.
    pub fn from_id(id: u8) -> (r: Result<Team, String>)
        ensures
            spec_team_from_id(id) matches Some(t) ==> r == Ok::<Team, String>(t),
            spec_team_from_id(id) is None ==> (r matches Err(e) && e@ == "Invalid team id"@),
    {
        if id == EVENT_ID_PLAYER {
            Ok(Team::Player)
        } else if id == EVENT_ID_ENEMY {
            Ok(Team::Enemy)
        } else if id == EVENT_ID_BARBARIAN {
            Ok(Team::Barbarians)
        } else {
            Err("Invalid team id".to_string())
        }
    }

    /// The lower-case name of the team.
    pub fn to_string(&self) -> (s: String)
        ensures
            s@ == spec_team_name(*self),
    {
        match self {
            Team::Player => "player".to_string(),
            Team::Enemy => "enemy".to_string(),
            Team::Barbarians => "barbarians".to_string(),
        }
    }
}

/// Reading back the identifier a team is sent as gives the team.
pub proof fn lemma_team_id_roundtrip(t: Team)
    ensures
        spec_team_from_id(spec_team_id(t)) == Some(t),
{
}

/// Only the three identifiers of the teams name a team.
pub proof fn lemma_team_from_id_inverse(id: u8)
    ensures
        spec_team_from_id(id) matches Some(t) ==> spec_team_id(t) == id,
        spec_team_from_id(id) is Some <==> id <= 2,
{
}

/// Seeing a team from the same client twice gives the team back.
pub proof fn lemma_as_client_involution(t: Team, me: Team)
    ensures
        spec_as_client(spec_as_client(t, me), me) == t,
{
}

} // verus!
