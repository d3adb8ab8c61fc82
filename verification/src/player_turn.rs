//! What the local player's input does on the player's turn: selecting a
//! unit, choosing to move or attack with it, doing so, choosing a new unit
//! after a conversion, and ending the turn. The moves are sent as events.

use vstd::prelude::*;
use crate::codec::{Event, EVENT_ATTACK, EVENT_END_TURN, EVENT_ID_PLAYER, EVENT_MOVE, EVENT_SPAWN_UNIT,
    EVENT_UNIT_ARCHER, EVENT_UNIT_MAGE, EVENT_UNIT_MELEE};
use crate::game_map::{GameMap, spec_unit_at};
use crate::pathing::{SearchMode, spec_reachable, contains_pos};
use crate::player_state::{PlayerAction, PlayerState};
use crate::random::random_in_range;
use crate::unit::{Unit, free_at, walk_ends, respawn_loc, spec_free_at, spec_walk_ends, spec_walk_result, spec_hit_threshold, spec_holds_opponent};
use crate::unit_interface::{UnitInterface, CAM_W, CAM_H, spec_click_selection, spec_choose_unit_click_selection, spec_unit_scroll_corner};

verus! {

/// In percent, the chance that a barbarian killed by the player joins the player.
pub const CONVERSION_CHANCE: u64 = 45;

/// What the player did this frame, as the input layer reads it.
#[derive(Clone, Copy, Debug)]
pub struct PlayerInput {
    /// Backspace is held.
    pub backspace_held: bool,
    /// The left or right button went down this frame.
    pub left_clicked: bool,
    pub right_clicked: bool,
    /// The mouse is over the end-turn button.
    pub on_end_turn_button: bool,
    /// Matrix indices (row, column) of the tile under the mouse.
    pub tile: (u32, u32),
    /// The mouse position on the map, in pixels.
    pub map_x: u32,
    pub map_y: u32,
    /// How far the camera is scrolled (both at most zero).
    pub cam_x: i32,
    pub cam_y: i32,
}

/// `ps` with no unit selected and `action` as what clicks mean.
pub open spec fn spec_deselect(ps: PlayerState, action: PlayerAction) -> PlayerState {
    PlayerState { active_unit_i: -1i32, active_unit_j: -1i32, current_player_action: action, ..ps }
}

/// What the player does after an attack dealing `damage` to a unit with
/// `hp` hit points: choose the unit the killed one turns into when the
/// attack kills it and the conversion roll `roll`, out of 100, came under the
/// conversion chance; nothing otherwise.
pub open spec fn spec_after_attack(hp: u32, damage: u32, roll: u64) -> PlayerAction {
    if hp <= damage && roll < CONVERSION_CHANCE {
        PlayerAction::ChoosePrimer
    } else {
        PlayerAction::Default
    }
}

/// What the player does after an attack (see `spec_after_attack`).
pub fn after_attack(hp: u32, damage: u32, roll: u64) -> (a: PlayerAction)
    ensures
        a == spec_after_attack(hp, damage, roll),
{
    if hp <= damage && roll < CONVERSION_CHANCE {
        PlayerAction::ChoosePrimer
    } else {
        PlayerAction::Default
    }
}

/// The position (x, y) of the selected unit of `ps`.
pub open spec fn spec_active_pos(ps: PlayerState) -> (u32, u32) {
    (ps.active_unit_j as u32, ps.active_unit_i as u32)
}

/// `ui` told to close.
pub open spec fn spec_closed(ui: UnitInterface) -> UnitInterface {
    UnitInterface { closing: true, ..ui }
}

/// Whether `ui` is a freshly opened scroll for unit `u`.
pub open spec fn spec_unit_scroll(ui: UnitInterface, u: Unit) -> bool {
    &&& (ui.x, ui.y) == spec_unit_scroll_corner(u.x, u.y)
    &&& ui.txt@.len() == 2
    &&& ui.txt@[0].text@ == "Move"@
    &&& ui.txt@[0].valid == !u.has_moved
    &&& ui.txt@[1].text@ == "Attack"@
    &&& ui.txt@[1].valid == !u.has_attacked
    &&& !ui.opened
    &&& !ui.closing
}

/// Whether `ui` is a freshly opened scroll for choosing a new unit, in the
/// middle of the camera's view.
pub open spec fn spec_new_unit_scroll(ui: UnitInterface, cam_x: i32, cam_y: i32) -> bool {
    &&& ui.x == -cam_x + CAM_W / 2
    &&& ui.y == -cam_y + CAM_H / 2
    &&& ui.txt@.len() == 3
    &&& ui.txt@[0].text@ == "Ranger"@
    &&& ui.txt@[1].text@ == "Melee"@
    &&& ui.txt@[2].text@ == "Mage"@
    &&& ui.txt@[0].valid && ui.txt@[1].valid && ui.txt@[2].valid
    &&& !ui.opened
    &&& !ui.closing
}

/// The event sent for choosing new-unit class `a`, if it is one.
pub open spec fn spec_chosen_unit_id(a: PlayerAction) -> Option<u8> {
    match a {
        PlayerAction::ChosenRanger => Some(EVENT_UNIT_ARCHER),
        PlayerAction::ChosenMelee => Some(EVENT_UNIT_MELEE),
        PlayerAction::ChosenMage => Some(EVENT_UNIT_MAGE),
        _ => None,
    }
}

/// Whether `r` is where a new unit spawns for the player's castle at `c`:
/// the castle if free, else the end of the walk from the castle toward the
/// point five tiles left and down from it.
pub open spec fn spec_spawn_spot(m: Map<(u32, u32), crate::tile::Tile>, c: (u32, u32), r: (u32, u32)) -> bool {
    let from = ((c.0 - 5) as u32, (c.1 + 5) as u32);
    &&& spec_free_at(m, c) ==> r == c
    &&& !spec_free_at(m, c) ==> spec_walk_result(m, from, c, r)
}

/// Whether games `a` and `b` agree on everything a player's turn does not touch.
pub open spec fn spec_turn_frame(a: GameMap, b: GameMap) -> bool {
    &&& a.map_tiles == b.map_tiles
    &&& a.map_size == b.map_size
    &&& a.objectives == b.objectives
    &&& a.player_units == b.player_units
    &&& a.enemy_units == b.enemy_units
    &&& a.barbarian_units == b.barbarian_units
    &&& a.banner == b.banner
    &&& a.event_list_index == b.event_list_index
    &&& a.winning_team == b.winning_team
    &&& a.damage_reports == b.damage_reports
}

/// Whether `b` is `a` with only the player state, the unit scroll, and the
/// events changed as given.
pub open spec fn spec_only(a: GameMap, b: GameMap, ps: PlayerState, ui: Option<UnitInterface>, ev: Seq<Event>) -> bool {
    &&& spec_turn_frame(a, b)
    &&& b.player_state == ps
    &&& b.unit_interface == ui
    &&& b.event_list@ == ev
    &&& b.possible_moves == a.possible_moves
    &&& b.possible_attacks == a.possible_attacks
    &&& b.actual_attacks == a.actual_attacks
    &&& b.choose_unit_interface == a.choose_unit_interface
}

/// The event ending the player's turn.
pub open spec fn spec_end_turn_event() -> Event {
    Event { action: EVENT_END_TURN, id: EVENT_ID_PLAYER, from_pos: (0, 0), to_pos: (0, 0), value: 0, from_self: true }
}

/// What `input` does to game `before` on the player's turn, with result `r`:
/// nothing while the banner is up; ending the turn on backspace or a click
/// on the end-turn button (unless a new unit is being chosen); otherwise
/// what the current action makes of the input.
pub open spec fn spec_player_turn(before: GameMap, after: GameMap, input: PlayerInput, r: Result<(), String>) -> bool {
    let ps = before.player_state;
    let act = ps.current_player_action;
    let ev = before.event_list@;
    if before.banner.banner_visible {
        r is Ok && spec_only(before, after, ps, before.unit_interface, ev)
    } else if (input.backspace_held || (input.left_clicked && input.on_end_turn_button)) && act != PlayerAction::ChoosingNewUnit {
        r is Ok && spec_only(before, after, spec_deselect(ps, PlayerAction::Default), None, ev.push(spec_end_turn_event()))
    } else {
        match act {
            PlayerAction::Default => spec_turn_default(before, after, input, r),
            PlayerAction::ChoosingUnitAction => spec_turn_choosing_action(before, after, input, r),
            PlayerAction::MovingUnit => spec_turn_moving(before, after, input, r),
            PlayerAction::AttackingUnit => spec_turn_attacking(before, after, input, r),
            PlayerAction::ChoosePrimer => spec_turn_primer(before, after, input, r),
            PlayerAction::ChoosingNewUnit => spec_turn_new_unit(before, after, input, r),
            _ => r is Ok && spec_only(before, after, ps, before.unit_interface, ev),
        }
    }
}

/// With no unit selected, a left click on a unit of the player selects it
/// and opens its scroll.
pub open spec fn spec_turn_default(before: GameMap, after: GameMap, input: PlayerInput, r: Result<(), String>) -> bool {
    let ps = before.player_state;
    let (i, j) = input.tile;
    let ev = before.event_list@;
    &&& r is Ok
    &&& if input.left_clicked && before.player_units@.contains_key((j, i)) {
        &&& spec_only(before, after, PlayerState {
            active_unit_i: i as i32,
            active_unit_j: j as i32,
            current_player_action: PlayerAction::ChoosingUnitAction,
            ..ps
        }, after.unit_interface, ev)
        &&& after.unit_interface matches Some(nui) && spec_unit_scroll(nui, before.player_units@[(j, i)])
    } else {
        spec_only(before, after, ps, before.unit_interface, ev)
    }
}

/// With the scroll of a selected unit open, a left click on it chooses:
/// letting the unit go, moving it (its reachable tiles are shown), or
/// attacking with it (the tiles in range and those it can attack are shown).
pub open spec fn spec_turn_choosing_action(before: GameMap, after: GameMap, input: PlayerInput, r: Result<(), String>) -> bool {
    let ps = before.player_state;
    let ev = before.event_list@;
    let ui = before.unit_interface;
    &&& r is Ok
    &&& if !input.left_clicked {
        spec_only(before, after, ps, ui, ev)
    } else {
        let cur = ui->0;
        let a2 = spec_click_selection(cur, input.map_x, input.map_y);
        let u = before.player_units@[spec_active_pos(ps)];
        let closed = Some(spec_closed(cur));
        let ps2 = PlayerState { current_player_action: a2, ..ps };
        &&& spec_turn_frame(before, after)
        &&& after.event_list@ == ev
        &&& after.choose_unit_interface == before.choose_unit_interface
        &&& if a2 == PlayerAction::Default {
            &&& after.player_state == spec_deselect(ps, PlayerAction::Default)
            &&& after.unit_interface == closed
            &&& after.possible_moves == before.possible_moves
            &&& after.possible_attacks == before.possible_attacks
            &&& after.actual_attacks == before.actual_attacks
        } else if a2 == PlayerAction::MovingUnit {
            &&& after.player_state == ps2
            &&& after.unit_interface == closed
            &&& after.possible_moves@.no_duplicates()
            &&& forall|q: (u32, u32)| #[trigger] after.possible_moves@.contains(q) <==> spec_reachable(before.map_tiles@,
                SearchMode::Movement, u.spec_pos(), q, u.movement_range as int)
            &&& after.possible_attacks == before.possible_attacks
            &&& after.actual_attacks == before.actual_attacks
        } else if a2 == PlayerAction::AttackingUnit {
            &&& after.player_state == ps2
            &&& after.unit_interface == closed
            &&& after.possible_moves == before.possible_moves
            &&& after.possible_attacks@.no_duplicates()
            &&& forall|q: (u32, u32)| #[trigger] after.possible_attacks@.contains(q) <==> (q != u.spec_pos()
                && spec_reachable(before.map_tiles@, SearchMode::Attack, u.spec_pos(), q, u.attack_range as int))
            &&& after.actual_attacks@.no_duplicates()
            &&& forall|q: (u32, u32)| #[trigger] after.actual_attacks@.contains(q) <==> (q != u.spec_pos()
                && spec_reachable(before.map_tiles@, SearchMode::Attack, u.spec_pos(), q, u.attack_range as int)
                && spec_holds_opponent(before.map_tiles@, q, u.team))
        } else {
            spec_only(before, after, ps2, ui, ev)
        }
    }
}

/// While moving, a right click lets the unit go; a left click moves it to
/// the tile clicked if that tile is within its reach, and lets it go.
pub open spec fn spec_turn_moving(before: GameMap, after: GameMap, input: PlayerInput, r: Result<(), String>) -> bool {
    let ps = before.player_state;
    let (i, j) = input.tile;
    let ev = before.event_list@;
    let ui = before.unit_interface;
    &&& r is Ok
    &&& if input.right_clicked {
        spec_only(before, after, spec_deselect(ps, PlayerAction::Default), ui, ev)
    } else if input.left_clicked {
        spec_only(before, after, spec_deselect(ps, PlayerAction::Default), ui,
            if before.possible_moves@.contains((j, i)) {
                ev.push(Event { action: EVENT_MOVE, id: 0, from_pos: spec_active_pos(ps), to_pos: (j, i), value: 0, from_self: true })
            } else {
                ev
            })
    } else {
        spec_only(before, after, ps, ui, ev)
    }
}

/// While attacking, a right click lets the unit go; a left click on a unit
/// it can attack attacks it (failing if either unit cannot be found), and a
/// unit killed may join the player; then the unit is let go.
pub open spec fn spec_turn_attacking(before: GameMap, after: GameMap, input: PlayerInput, r: Result<(), String>) -> bool {
    let ps = before.player_state;
    let (i, j) = input.tile;
    let ev = before.event_list@;
    let ui = before.unit_interface;
    let same = spec_only(before, after, ps, ui, ev);
    if input.right_clicked {
        r is Ok && spec_only(before, after, spec_deselect(ps, PlayerAction::Default), ui, ev)
    } else if input.left_clicked {
        if !before.actual_attacks@.contains((j, i)) {
            r is Ok && spec_only(before, after, spec_deselect(ps, PlayerAction::Default), ui, ev)
        } else if spec_unit_at(before, spec_active_pos(ps)) is None || spec_unit_at(before, (j, i)) is None {
            r is Err && same
        } else {
            let attacker = spec_unit_at(before, spec_active_pos(ps))->0;
            let target = spec_unit_at(before, (j, i))->0;
            &&& r is Ok
            &&& exists|damage: u32| {
                &&& (damage == 0 || attacker.min_damage <= damage <= attacker.max_damage)
                &&& (spec_hit_threshold(attacker, target) == 0 ==> damage == 0)
                &&& (spec_hit_threshold(attacker, target) >= 100 ==> attacker.min_damage <= damage <= attacker.max_damage)
                &&& after.event_list@ == ev.push(#[trigger] spec_attack_event(spec_active_pos(ps), (j, i), damage))
                &&& exists|roll: u64| roll < 100
                    && after.player_state == spec_deselect(ps, #[trigger] spec_after_attack(target.hp, damage, roll))
            }
            &&& spec_turn_frame(before, after)
            &&& after.unit_interface == ui
            &&& after.possible_moves == before.possible_moves
            &&& after.possible_attacks == before.possible_attacks
            &&& after.actual_attacks == before.actual_attacks
            &&& after.choose_unit_interface == before.choose_unit_interface
        }
    } else {
        r is Ok && same
    }
}

/// After a conversion, the scroll for choosing the new unit opens.
pub open spec fn spec_turn_primer(before: GameMap, after: GameMap, input: PlayerInput, r: Result<(), String>) -> bool {
    let ps = before.player_state;
    let ev = before.event_list@;
    let ui = before.unit_interface;
    &&& r is Ok
    &&& spec_turn_frame(before, after)
    &&& after.player_state == PlayerState { current_player_action: PlayerAction::ChoosingNewUnit, ..ps }
    &&& after.choose_unit_interface matches Some(cui) && spec_new_unit_scroll(cui, input.cam_x, input.cam_y)
    &&& after.unit_interface == ui
    &&& after.event_list@ == ev
    &&& after.possible_moves == before.possible_moves
    &&& after.possible_attacks == before.possible_attacks
    &&& after.actual_attacks == before.actual_attacks
}

/// With the new-unit scroll open, a left click on a class sends the spawn
/// of such a unit at the player's castle and closes the scroll.
pub open spec fn spec_turn_new_unit(before: GameMap, after: GameMap, input: PlayerInput, r: Result<(), String>) -> bool {
    let ps = before.player_state;
    let ev = before.event_list@;
    let ui = before.unit_interface;
    let same = spec_only(before, after, ps, ui, ev);
    &&& r is Ok
    &&& if !input.left_clicked {
        same
    } else {
        let cui = before.choose_unit_interface->0;
        let a2 = spec_choose_unit_click_selection(cui, input.map_x, input.map_y);
        &&& spec_turn_frame(before, after)
        &&& after.unit_interface == ui
        &&& after.possible_moves == before.possible_moves
        &&& after.possible_attacks == before.possible_attacks
        &&& after.actual_attacks == before.actual_attacks
        &&& match spec_chosen_unit_id(a2) {
            Some(id) => {
                &&& after.player_state == PlayerState { current_player_action: PlayerAction::Default, ..ps }
                &&& after.choose_unit_interface == Some(spec_closed(cui))
                &&& after.event_list@ == ev.push(spec_spawn_event(id, after.event_list@.last().to_pos))
                &&& spec_spawn_spot(before.map_tiles@, before.objectives.p1_castle, after.event_list@.last().to_pos)
            },
            None => {
                &&& after.player_state == PlayerState { current_player_action: a2, ..ps }
                &&& after.choose_unit_interface == before.choose_unit_interface
                &&& after.event_list@ == ev
            },
        }
    }
}

/// The attack event from `from` on `to` for `damage` (of which the event carries the low byte).
pub open spec fn spec_attack_event(from: (u32, u32), to: (u32, u32), damage: u32) -> Event {
    Event { action: EVENT_ATTACK, id: 0, from_pos: from, to_pos: to, value: damage as u8, from_self: true }
}

/// The event spawning a unit of class `id` at `spot`.
pub open spec fn spec_spawn_event(id: u8, spot: (u32, u32)) -> Event {
    Event { action: EVENT_SPAWN_UNIT, id, from_pos: (0, 0), to_pos: spot, value: id, from_self: true }
}

/// Whether the clicks of `input` can be handled on game `game` without
/// failing: the scroll a click lands on is there and far enough from the end
/// of the coordinate range, the selected unit is there, and a new unit has
/// somewhere to spawn.
pub open spec fn spec_turn_input_ok(g: GameMap, input: PlayerInput) -> bool {
    let ps = g.player_state;
    let act = ps.current_player_action;
    let (i, j) = input.tile;
    let ended = (input.backspace_held || (input.left_clicked && input.on_end_turn_button))
        && act != PlayerAction::ChoosingNewUnit;
    let c = g.objectives.p1_castle;
    !g.banner.banner_visible && !ended ==> {
        &&& (act == PlayerAction::AttackingUnit && input.left_clicked && !input.right_clicked
            && g.actual_attacks@.contains((j, i)))
            ==> (spec_unit_at(g, spec_active_pos(ps)) matches Some(a) ==> a.min_damage <= a.max_damage)
        &&& (act == PlayerAction::Default && input.left_clicked && g.player_units@.contains_key((j, i)))
            ==> g.player_units@[(j, i)].x < 0x3ff_ffff && g.player_units@[(j, i)].y < 0x3ff_ffff
        &&& (act == PlayerAction::ChoosingUnitAction && input.left_clicked) ==> {
            &&& g.unit_interface matches Some(ui) && ui.txt@.len() >= 2 && ui.x <= i32::MAX - 7 && ui.y <= i32::MAX - 32
            &&& g.player_units@.contains_key(spec_active_pos(ps))
        }
        &&& act == PlayerAction::ChoosePrimer ==> {
            &&& -input.cam_x + CAM_W / 2 <= i32::MAX
            &&& -input.cam_y + CAM_H / 2 <= i32::MAX
            &&& input.cam_x > i32::MIN
            &&& input.cam_y > i32::MIN
        }
        &&& (act == PlayerAction::ChoosingNewUnit && input.left_clicked) ==> {
            &&& g.choose_unit_interface matches Some(cui) && cui.x <= i32::MAX - 7 && cui.y <= i32::MAX - 48
            &&& 5 <= c.0
            &&& c.1 + 5 <= u32::MAX
            &&& g.map_tiles@.contains_key((c.1, c.0))
            &&& !spec_free_at(g.map_tiles@, c) ==> spec_walk_ends(g.map_tiles@, ((c.0 - 5) as u32, (c.1 + 5) as u32), c)
        }
    }
}

/// Whether `handle_player_turn` can take `input` on `game_map`: the input's
/// clicks can be handled (see `spec_turn_input_ok`).
pub fn player_input_ok(game_map: &GameMap, input: &PlayerInput) -> (b: bool)
    ensures
        b == spec_turn_input_ok(*game_map, *input),
{
    let act = game_map.player_state.current_player_action;
    let (i, j) = input.tile;
    let ended = (input.backspace_held || (input.left_clicked && input.on_end_turn_button))
        && act != PlayerAction::ChoosingNewUnit;
    if game_map.banner.banner_visible || ended {
        return true;
    }
    match act {
        PlayerAction::Default => {
            if input.left_clicked {
                match game_map.player_units.get((j, i)) {
                    Some(u) => u.x < 0x3ff_ffff && u.y < 0x3ff_ffff,
                    None => true,
                }
            } else {
                true
            }
        },
        PlayerAction::ChoosingUnitAction => {
            if input.left_clicked {
                match &game_map.unit_interface {
                    Some(ui) => ui.txt.len() >= 2 && ui.x <= i32::MAX - 7 && ui.y <= i32::MAX - 32
                        && game_map.player_units.contains_key(
                        (game_map.player_state.active_unit_j as u32, game_map.player_state.active_unit_i as u32)),
                    None => false,
                }
            } else {
                true
            }
        },
        PlayerAction::AttackingUnit => {
            if input.left_clicked && !input.right_clicked && contains_pos(&game_map.actual_attacks, (j, i)) {
                let from = (game_map.player_state.active_unit_j as u32, game_map.player_state.active_unit_i as u32);
                match game_map.get_unit(&from) {
                    Ok(a) => a.min_damage <= a.max_damage,
                    Err(_) => true,
                }
            } else {
                true
            }
        },
        PlayerAction::ChoosePrimer => {
            input.cam_x > i32::MIN && input.cam_y > i32::MIN
                && -(input.cam_x as i64) + (CAM_W / 2) as i64 <= i32::MAX as i64
                && -(input.cam_y as i64) + (CAM_H / 2) as i64 <= i32::MAX as i64
        },
        PlayerAction::ChoosingNewUnit => {
            if input.left_clicked {
                let c = game_map.objectives.p1_castle;
                match &game_map.choose_unit_interface {
                    Some(cui) => {
                        if !(cui.x <= i32::MAX - 7 && cui.y <= i32::MAX - 48 && 5 <= c.0 && c.1 <= u32::MAX - 5
                            && game_map.map_tiles.contains_key((c.1, c.0))) {
                            false
                        } else {
                            free_at(&game_map.map_tiles, c) || walk_ends(&game_map.map_tiles, (c.0 - 5, c.1 + 5), c)
                        }
                    },
                    None => false,
                }
            } else {
                true
            }
        },
        _ => true,
    }
}

/// Ends the player's turn: the unit scroll is dropped, nothing is selected,
/// and the end of the turn is sent.
pub fn end_player_turn(game_map: &mut GameMap)
    ensures
        spec_only(*old(game_map), *final(game_map), spec_deselect(old(game_map).player_state, PlayerAction::Default),
            None, old(game_map).event_list@.push(spec_end_turn_event())),
{
    game_map.unit_interface = None;
    game_map.player_state.active_unit_i = -1;
    game_map.player_state.active_unit_j = -1;
    game_map.player_state.current_player_action = PlayerAction::Default;
    game_map.event_list.push(Event::create(EVENT_END_TURN, EVENT_ID_PLAYER, (0, 0), (0, 0), 0));
}

fn deselect(game_map: &mut GameMap, action: PlayerAction)
    ensures
        spec_only(*old(game_map), *final(game_map), spec_deselect(old(game_map).player_state, action),
            old(game_map).unit_interface, old(game_map).event_list@),
{
    game_map.player_state.active_unit_i = -1;
    game_map.player_state.active_unit_j = -1;
    game_map.player_state.current_player_action = action;
}

/// Whether `input` neither finds the banner up nor ends the turn on game `g`.
pub open spec fn spec_plays_on(g: GameMap, input: PlayerInput) -> bool {
    &&& !g.banner.banner_visible
    &&& !((input.backspace_held || (input.left_clicked && input.on_end_turn_button))
        && g.player_state.current_player_action != PlayerAction::ChoosingNewUnit)
}

fn turn_default(game_map: &mut GameMap, input: &PlayerInput) -> (r: Result<(), String>)
    requires
        spec_turn_input_ok(*old(game_map), *input),
        spec_plays_on(*old(game_map), *input),
        old(game_map).player_state.current_player_action == PlayerAction::Default,
    ensures
        spec_turn_default(*old(game_map), *final(game_map), *input, r),
{
    let (i, j) = input.tile;
    if input.left_clicked {
        match game_map.player_units.get((j, i)) {
            Some(active_unit) => {
                game_map.player_state.active_unit_i = i as i32;
                game_map.player_state.active_unit_j = j as i32;
                game_map.unit_interface = Some(UnitInterface::from_unit(&active_unit));
                game_map.player_state.current_player_action = PlayerAction::ChoosingUnitAction;
            },
            None => {},
        }
    }
    Ok(())
}

fn turn_choosing_action(game_map: &mut GameMap, input: &PlayerInput) -> (r: Result<(), String>)
    requires
        spec_turn_input_ok(*old(game_map), *input),
        spec_plays_on(*old(game_map), *input),
        old(game_map).player_state.current_player_action == PlayerAction::ChoosingUnitAction,
    ensures
        spec_turn_choosing_action(*old(game_map), *final(game_map), *input, r),
{
    if input.left_clicked {
        let active_pos = (game_map.player_state.active_unit_j as u32, game_map.player_state.active_unit_i as u32);
        let active_unit = match game_map.player_units.get(active_pos) {
            Some(u) => u,
            None => {
                return Ok(());
            },
        };
        let mut cur = match game_map.unit_interface.take() {
            Some(ui) => ui,
            None => {
                return Ok(());
            },
        };
        let a2 = cur.get_click_selection(input.map_x, input.map_y);
        game_map.player_state.current_player_action = a2;
        if a2 == PlayerAction::Default {
            game_map.player_state.active_unit_i = -1;
            game_map.player_state.active_unit_j = -1;
            cur.animate_close();
        } else if a2 == PlayerAction::MovingUnit {
            game_map.possible_moves = active_unit.get_tiles_in_movement_range(&game_map.map_tiles);
            cur.animate_close();
        } else if a2 == PlayerAction::AttackingUnit {
            game_map.possible_attacks = active_unit.get_tiles_in_attack_range(&game_map.map_tiles);
            game_map.actual_attacks = active_unit.get_tiles_can_attack(&game_map.map_tiles);
            cur.animate_close();
        }
        game_map.unit_interface = Some(cur);
    }
    Ok(())
}

fn turn_moving(game_map: &mut GameMap, input: &PlayerInput) -> (r: Result<(), String>)
    requires
        spec_plays_on(*old(game_map), *input),
        old(game_map).player_state.current_player_action == PlayerAction::MovingUnit,
    ensures
        spec_turn_moving(*old(game_map), *final(game_map), *input, r),
{
    let (i, j) = input.tile;
    if input.right_clicked {
        deselect(game_map, PlayerAction::Default);
    } else if input.left_clicked {
        if contains_pos(&game_map.possible_moves, (j, i)) {
            let from = (game_map.player_state.active_unit_j as u32, game_map.player_state.active_unit_i as u32);
            game_map.event_list.push(Event::create(EVENT_MOVE, 0, from, (j, i), 0));
        }
        deselect(game_map, PlayerAction::Default);
    }
    Ok(())
}

fn turn_attacking(game_map: &mut GameMap, input: &PlayerInput) -> (r: Result<(), String>)
    requires
        spec_turn_input_ok(*old(game_map), *input),
        spec_plays_on(*old(game_map), *input),
        old(game_map).player_state.current_player_action == PlayerAction::AttackingUnit,
    ensures
        spec_turn_attacking(*old(game_map), *final(game_map), *input, r),
{
    let (i, j) = input.tile;
    if input.right_clicked {
        deselect(game_map, PlayerAction::Default);
    } else if input.left_clicked {
        if contains_pos(&game_map.actual_attacks, (j, i)) {
            let from = (game_map.player_state.active_unit_j as u32, game_map.player_state.active_unit_i as u32);
            let active_unit = match game_map.get_unit(&from) {
                Ok(u) => u,
                Err(e) => {
                    return Err(e);
                },
            };
            let atk_unit = match game_map.get_unit(&(j, i)) {
                Ok(u) => u,
                Err(e) => {
                    return Err(e);
                },
            };
            let atk_damage = active_unit.get_attack_damage(&atk_unit);
            let atk_kill = atk_unit.hp <= atk_damage;
            game_map.event_list.push(Event::create(EVENT_ATTACK, 0, from, (j, i), atk_damage as u8));
            assert(game_map.event_list@ == old(game_map).event_list@.push(spec_attack_event(from, (j, i), atk_damage)));
            let roll = if atk_kill { random_in_range(0, 100) } else { 0 };
            game_map.player_state.current_player_action = after_attack(atk_unit.hp, atk_damage, roll);
            assert(spec_after_attack(atk_unit.hp, atk_damage, roll) == game_map.player_state.current_player_action);
        }
        game_map.player_state.active_unit_i = -1;
        game_map.player_state.active_unit_j = -1;
        if game_map.player_state.current_player_action != PlayerAction::ChoosePrimer {
            game_map.player_state.current_player_action = PlayerAction::Default;
        }
    }
    Ok(())
}

fn turn_new_unit(game_map: &mut GameMap, input: &PlayerInput) -> (r: Result<(), String>)
    requires
        spec_turn_input_ok(*old(game_map), *input),
        spec_plays_on(*old(game_map), *input),
        old(game_map).player_state.current_player_action == PlayerAction::ChoosingNewUnit,
    ensures
        spec_turn_new_unit(*old(game_map), *final(game_map), *input, r),
{
    if input.left_clicked {
        let castle_coord = game_map.objectives.p1_castle;
        let mut cui = match game_map.choose_unit_interface.take() {
            Some(c) => c,
            None => {
                return Ok(());
            },
        };
        let a2 = cui.get_choose_unit_click_selection(input.map_x, input.map_y);
        game_map.player_state.current_player_action = a2;
        let respawn_location = respawn_loc((castle_coord.0 - 5, castle_coord.1 + 5), &game_map.map_tiles, castle_coord);
        let unit_id: u8 = if a2 == PlayerAction::ChosenRanger {
            EVENT_UNIT_ARCHER
        } else if a2 == PlayerAction::ChosenMelee {
            EVENT_UNIT_MELEE
        } else if a2 == PlayerAction::ChosenMage {
            EVENT_UNIT_MAGE
        } else {
            100
        };
        if unit_id != 100 {
            game_map.event_list.push(Event::create(EVENT_SPAWN_UNIT, unit_id, (0, 0), respawn_location, unit_id));
            cui.animate_close();
            game_map.player_state.current_player_action = PlayerAction::Default;
        }
        game_map.choose_unit_interface = Some(cui);
    }
    Ok(())
}

/// Handles one frame of the player's input on the player's turn (see
/// `spec_player_turn`), once the turn banner has gone.
pub fn handle_player_turn(game_map: &mut GameMap, input: &PlayerInput) -> (r: Result<(), String>)
    requires
        spec_turn_input_ok(*old(game_map), *input),
    ensures
        spec_player_turn(*old(game_map), *final(game_map), *input, r),
{
    if game_map.banner.banner_visible {
        return Ok(());
    }
    let act = game_map.player_state.current_player_action;
    if (input.backspace_held || (input.left_clicked && input.on_end_turn_button)) && act != PlayerAction::ChoosingNewUnit {
        end_player_turn(game_map);
        return Ok(());
    }
    match act {
        PlayerAction::Default => turn_default(game_map, input),
        PlayerAction::ChoosingUnitAction => turn_choosing_action(game_map, input),
        PlayerAction::MovingUnit => turn_moving(game_map, input),
        PlayerAction::AttackingUnit => turn_attacking(game_map, input),
        PlayerAction::ChoosePrimer => {
            game_map.choose_unit_interface = Some(UnitInterface::from_conversion(input.cam_x, input.cam_y));
            game_map.player_state.current_player_action = PlayerAction::ChoosingNewUnit;
            Ok(())
        },
        PlayerAction::ChoosingNewUnit => turn_new_unit(game_map, input),
        _ => Ok(()),
    }
}

/// A sure hit by the player deals damage: on the player's turn, with the
/// attack chosen, a left click on a listed target whose unit the selected
/// unit is sure to hit (a hit threshold of 100 or more) adds exactly one
/// event: an attack from the selected unit's tile to the clicked one whose
/// value is a damage between the attacker's least and most.
pub proof fn lemma_player_sure_hit(before: GameMap, after: GameMap, input: PlayerInput, r: Result<(), String>)
    requires
        spec_player_turn(before, after, input, r),
        !before.banner.banner_visible,
        !input.backspace_held,
        !input.on_end_turn_button,
        before.player_state.current_player_action == PlayerAction::AttackingUnit,
        input.left_clicked,
        !input.right_clicked,
        before.actual_attacks@.contains((input.tile.1, input.tile.0)),
        spec_unit_at(before, spec_active_pos(before.player_state)) is Some,
        spec_unit_at(before, (input.tile.1, input.tile.0)) is Some,
        spec_hit_threshold(
            spec_unit_at(before, spec_active_pos(before.player_state))->0,
            spec_unit_at(before, (input.tile.1, input.tile.0))->0,
        ) >= 100,
    ensures
        r is Ok,
        after.event_list@.len() == before.event_list@.len() + 1,
        after.event_list@.last().action == EVENT_ATTACK,
        after.event_list@.last().from_pos == spec_active_pos(before.player_state),
        after.event_list@.last().to_pos == (input.tile.1, input.tile.0),
        exists|d: u32| #![trigger (d as u8)]
            spec_unit_at(before, spec_active_pos(before.player_state))->0.min_damage <= d
            && d <= spec_unit_at(before, spec_active_pos(before.player_state))->0.max_damage
            && after.event_list@.last().value == d as u8,
{
    let ps = before.player_state;
    let (i, j) = input.tile;
    let a = spec_unit_at(before, spec_active_pos(ps))->0;
    let v = spec_unit_at(before, (j, i))->0;
    let d = choose|d: u32| {
        &&& (d == 0 || a.min_damage <= d <= a.max_damage)
        &&& (spec_hit_threshold(a, v) == 0 ==> d == 0)
        &&& (spec_hit_threshold(a, v) >= 100 ==> a.min_damage <= d <= a.max_damage)
        &&& after.event_list@ == before.event_list@.push(#[trigger] spec_attack_event(spec_active_pos(ps), (j, i), d))
        &&& exists|roll: u64| roll < 100
            && after.player_state == spec_deselect(ps, #[trigger] spec_after_attack(v.hp, d, roll))
    };
    assert(after.event_list@.last() == spec_attack_event(spec_active_pos(ps), (j, i), d));
}

} // verus!
