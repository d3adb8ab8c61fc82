//! The turns of a game between two players over the server, as one client
//! keeps them: what a polled event, a click on the end-turn button and the
//! end of the barbarians' turn do. Sending and polling are the caller's.

use vstd::prelude::*;
use crate::banner::{Banner, BANNER_ALPHA, spec_banner_color, spec_turn_banner_key};
use crate::codec::{Event, EVENT_END_TURN};
use crate::player_state::{PlayerState, spec_next_team};
use crate::team::Team;

verus! {

/// The id of an end of turn sent by a player for its own turn.
pub const END_OF_PLAYER_TURN: u8 = 0;

/// The id of an end of turn sent by the host for the barbarians' turn.
pub const END_OF_BARBARIAN_TURN: u8 = 1;

/// Whether banner `b` announces `t`'s turn, fully opaque.
pub open spec fn spec_shows_turn(b: Banner, t: Team) -> bool {
    &&& b.banner_key@ == spec_turn_banner_key(t)
    &&& b.banner_colors == spec_banner_color(spec_turn_banner_key(t))
    &&& b.current_banner_transparency == BANNER_ALPHA
    &&& b.banner_visible
    &&& b.wf()
}

/// Whether `after` and `banner` are `before` with the turn passed on and
/// the next team's turn announced.
pub open spec fn spec_passed(before: PlayerState, after: PlayerState, banner: Banner) -> bool {
    &&& after == (PlayerState { current_turn: spec_next_team(before.current_turn), ..before })
    &&& spec_shows_turn(banner, after.current_turn)
}

/// Whether polled `event` ends the turn the other side was playing: the
/// other player's (id 0) while it is neither this side's turn nor the
/// barbarians', or the barbarians' (id 1, sent by the host) on the client
/// that does not host.
pub open spec fn spec_ends_other_turn(ps: PlayerState, is_host: bool, event: Event) -> bool {
    &&& event.action == EVENT_END_TURN
    &&& {
        ||| event.id == END_OF_PLAYER_TURN && ps.current_turn != ps.team && ps.current_turn != Team::Barbarians
        ||| event.id == END_OF_BARBARIAN_TURN && !is_host && ps.current_turn == Team::Barbarians
    }
}

/// Handles an event polled from the server: one that ends the turn the
/// other side was playing passes the turn on and announces the next.
/// Anything else changes nothing.
pub fn on_polled_event(player_state: &mut PlayerState, banner: &mut Banner, is_host: bool, event: &Event)
    ensures
        spec_ends_other_turn(*old(player_state), is_host, *event) ==> spec_passed(*old(player_state), *final(player_state), *final(banner)),
        !spec_ends_other_turn(*old(player_state), is_host, *event) ==> *final(player_state) == *old(player_state) && *final(banner) == *old(banner),
{
    if event.action == EVENT_END_TURN {
        if event.id == END_OF_PLAYER_TURN && !player_state.is_turn() && player_state.current_turn != Team::Barbarians {
            let next_team = player_state.advance_turn();
            banner.show_turn(next_team);
        } else if event.id == END_OF_BARBARIAN_TURN && !is_host && player_state.current_turn == Team::Barbarians {
            let next_team = player_state.advance_turn();
            banner.show_turn(next_team);
        }
    }
}

/// The end of turn with id `id`, to send to the other side.
pub open spec fn spec_end_turn_to_send(id: u8) -> Event {
    Event { action: EVENT_END_TURN, id, from_pos: (0, 0), to_pos: (0, 0), value: 0, from_self: true }
}

/// On this side's turn, a click on the end-turn button ends it: the turn
/// passes on, the next one is announced, and the end of turn to send is
/// returned. Otherwise nothing changes.
pub fn end_turn_clicked(player_state: &mut PlayerState, banner: &mut Banner, clicked_on_button: bool) -> (r: Option<Event>)
    ensures
        old(player_state).current_turn == old(player_state).team && clicked_on_button ==> {
            &&& r == Some(spec_end_turn_to_send(END_OF_PLAYER_TURN))
            &&& spec_passed(*old(player_state), *final(player_state), *final(banner))
        },
        !(old(player_state).current_turn == old(player_state).team && clicked_on_button) ==> {
            &&& r is None
            &&& *final(player_state) == *old(player_state)
            &&& *final(banner) == *old(banner)
        },
{
    if player_state.is_turn() && clicked_on_button {
        let next_team = player_state.advance_turn();
        banner.show_turn(next_team);
        Some(Event::create(EVENT_END_TURN, END_OF_PLAYER_TURN, (0, 0), (0, 0), 0))
    } else {
        None
    }
}

/// On the host, once the banner of the barbarians' turn has gone, their turn
/// ends: the turn passes on, the next one is announced, and the end of the
/// barbarians' turn to send is returned. Otherwise nothing changes.
pub fn end_barbarian_turn(player_state: &mut PlayerState, banner: &mut Banner, is_host: bool) -> (r: Option<Event>)
    ensures
        is_host && old(player_state).current_turn == Team::Barbarians && !old(banner).banner_visible ==> {
            &&& r == Some(spec_end_turn_to_send(END_OF_BARBARIAN_TURN))
            &&& spec_passed(*old(player_state), *final(player_state), *final(banner))
        },
        !(is_host && old(player_state).current_turn == Team::Barbarians && !old(banner).banner_visible) ==> {
            &&& r is None
            &&& *final(player_state) == *old(player_state)
            &&& *final(banner) == *old(banner)
        },
{
    if is_host && player_state.current_turn == Team::Barbarians && !banner.banner_visible {
        let next_team = player_state.advance_turn();
        banner.show_turn(next_team);
        Some(Event::create(EVENT_END_TURN, END_OF_BARBARIAN_TURN, (0, 0), (0, 0), 0))
    } else {
        None
    }
}

/// The two clients of a game keep their turns in step: when both agree
/// whose turn it is and the client playing it ends it with the button, the
/// other client, polling the end of turn that was sent, passes the turn to
/// the same team; so does the client that does not host when the host ends
/// the barbarians' turn.
pub proof fn lemma_turns_in_step(
    a0: PlayerState, a1: PlayerState, banner_a: Banner,
    b0: PlayerState, b1: PlayerState, banner_b: Banner,
    a_is_host: bool, b_is_host: bool, sent: Event,
)
    requires
        a0.current_turn == b0.current_turn,
        a0.team != b0.team,
        a0.team != Team::Barbarians,
        b0.team != Team::Barbarians,
        a_is_host != b_is_host,
        ({
            ||| a0.current_turn == a0.team && sent == spec_end_turn_to_send(END_OF_PLAYER_TURN)
            ||| a_is_host && a0.current_turn == Team::Barbarians && sent == spec_end_turn_to_send(END_OF_BARBARIAN_TURN)
        }),
        spec_passed(a0, a1, banner_a),
        spec_ends_other_turn(b0, b_is_host, sent) ==> spec_passed(b0, b1, banner_b),
        !spec_ends_other_turn(b0, b_is_host, sent) ==> b1 == b0,
    ensures
        b1.current_turn == a1.current_turn,
{
}

} // verus!
