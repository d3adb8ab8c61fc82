//! What the barbarians do on their turn: one unmoved barbarian at a time
//! either moves to attack a unit it can reach, or roams near its camp.

use vstd::prelude::*;
use crate::codec::{Event, EVENT_ATTACK, EVENT_END_TURN, EVENT_ID_BARBARIAN, EVENT_MOVE};
use crate::game_map::{GameMap, spec_unit_at, spec_unchanged};
use crate::pathing::{SearchMode, spec_area, spec_reachable, contains_pos};
use crate::random::choose_below;
use crate::unit::{Unit, spec_attack_targets, spec_holds_opponent, spec_hit_threshold};

verus! {

/// Whether `u` could attack the unit at `q` if it stood at `from`.
pub open spec fn spec_target(m: Map<(u32, u32), crate::tile::Tile>, u: Unit, from: (u32, u32), q: (u32, u32)) -> bool {
    &&& q != from
    &&& spec_reachable(m, SearchMode::Attack, from, q, u.attack_range as int)
    &&& spec_holds_opponent(m, q, u.team)
}

/// Whether `u` can move to `mv` and attack someone from there.
pub open spec fn spec_attack_option(m: Map<(u32, u32), crate::tile::Tile>, u: Unit, mv: (u32, u32)) -> bool {
    &&& spec_reachable(m, SearchMode::Movement, u.spec_pos(), mv, u.movement_range as int)
    &&& exists|q: (u32, u32)| #[trigger] spec_target(m, u, mv, q)
}

/// The tiles barbarian `u` can move to, in the order its movement search
/// finds them.
pub open spec fn spec_moves(m: Map<(u32, u32), crate::tile::Tile>, u: Unit) -> Seq<(u32, u32)> {
    spec_area(m, SearchMode::Movement, u.spec_pos(), u.movement_range as nat)
}

/// The units `u` could attack from `mv`, in the order its attack search finds them.
pub open spec fn spec_targets_from(m: Map<(u32, u32), crate::tile::Tile>, u: Unit, mv: (u32, u32)) -> Seq<(u32, u32)> {
    spec_attack_targets(m, mv, u.attack_range as nat, u.team)
}

/// Whether the `i`th tile `u` can move to is the first from which it can attack.
pub open spec fn spec_first_attack(m: Map<(u32, u32), crate::tile::Tile>, u: Unit, i: int) -> bool {
    &&& 0 <= i < spec_moves(m, u).len()
    &&& spec_targets_from(m, u, spec_moves(m, u)[i]).len() > 0
    &&& forall|j: int| 0 <= j < i ==> (#[trigger] spec_targets_from(m, u, spec_moves(m, u)[j])).len() == 0
}

/// The tile one step from (`x`, `y`) in direction `d`: up, right, down,
/// left, or (for 4) no step at all.
pub open spec fn spec_roam_step(x: u32, y: u32, d: int) -> (u32, u32) {
    if d == 0 {
        (x, (y - 1) as u32)
    } else if d == 1 {
        ((x + 1) as u32, y)
    } else if d == 2 {
        (x, (y + 1) as u32)
    } else if d == 3 {
        ((x - 1) as u32, y)
    } else {
        (x, y)
    }
}

/// Whether a barbarian `u` may roam to `p`: within three steps of where it
/// started and within its movement range.
pub open spec fn spec_roam_ok(m: Map<(u32, u32), crate::tile::Tile>, u: Unit, p: (u32, u32)) -> bool {
    let dx = p.0 - u.starting_x;
    let dy = p.1 - u.starting_y;
    &&& (if dx >= 0 { dx } else { -dx }) + (if dy >= 0 { dy } else { -dy }) <= 3
    &&& spec_reachable(m, SearchMode::Movement, u.spec_pos(), p, u.movement_range as int)
}

/// Whether the roaming of barbarian `u` stays clear of the ends of the
/// coordinate range.
pub open spec fn spec_roam_safe(u: Unit) -> bool {
    &&& 1 <= u.x <= 0x3fff_ffff
    &&& 1 <= u.y <= 0x3fff_ffff
    &&& u.starting_x <= 0x3fff_ffff
    &&& u.starting_y <= 0x3fff_ffff
    &&& u.min_damage <= u.max_damage
}

/// The events a barbarian `u` standing at its position can send to attack
/// the unit `target` at `q` after moving to `mv`, for `damage` (of which the
/// event carries the low byte).
pub open spec fn spec_attack_events(u: Unit, mv: (u32, u32), q: (u32, u32), damage: u32) -> Seq<Event> {
    seq![
        Event { action: EVENT_MOVE, id: 0, from_pos: u.spec_pos(), to_pos: mv, value: 0, from_self: true },
        Event { action: EVENT_ATTACK, id: 0, from_pos: mv, to_pos: q, value: damage as u8, from_self: true },
    ]
}

/// The event moving `u` to `p`.
pub open spec fn spec_move_event(u: Unit, p: (u32, u32)) -> Event {
    Event { action: EVENT_MOVE, id: 0, from_pos: u.spec_pos(), to_pos: p, value: 0, from_self: true }
}

/// Whether the events `ev` that barbarian `u` of game `g` sends on its move,
/// with result `r`, are what the barbarians' rules allow: if it can reach an
/// attack, it moves to the first tile of its movement range from which it
/// can attack and attacks the first unit it can reach from there (missing,
/// or dealing damage in its range; an error if no unit can be found on that
/// tile); otherwise it roams one step in some allowed direction, or stays if
/// none is allowed.
pub open spec fn spec_barbarian_acts(g: GameMap, u: Unit, ev: Seq<Event>, r: Result<(), String>) -> bool {
    let m = g.map_tiles@;
    if exists|mv: (u32, u32)| #[trigger] spec_attack_option(m, u, mv) {
        exists|i: int| {
            let mv = spec_moves(m, u)[i];
            let q = spec_targets_from(m, u, mv)[0];
            &&& #[trigger] spec_first_attack(m, u, i)
            &&& match spec_unit_at(g, q) {
                None => r is Err && ev.len() == 0,
                Some(target) => {
                    &&& r is Ok
                    &&& exists|damage: u32| {
                        &&& (damage == 0 || u.min_damage <= damage <= u.max_damage)
                        &&& (spec_hit_threshold(u, target) == 0 ==> damage == 0)
                        &&& ev == #[trigger] spec_attack_events(u, mv, q, damage)
                    }
                },
            }
        }
    } else {
        &&& r is Ok
        &&& ev.len() == 0 ==> forall|d: int| 0 <= d < 5 ==> !spec_roam_ok(m, u, #[trigger] spec_roam_step(u.x, u.y, d))
        &&& ev.len() != 0 ==> exists|d: int| {
            &&& 0 <= d < 5
            &&& spec_roam_ok(m, u, #[trigger] spec_roam_step(u.x, u.y, d))
            &&& ev == seq![spec_move_event(u, spec_roam_step(u.x, u.y, d))]
        }
    }
}

/// The events of a barbarian that can attack from somewhere in its range:
/// it moves to the first such tile found and attacks the first unit found
/// from there.
fn attack_from_range(game_map: &GameMap, barbarian: Unit, possible_moves: &Vec<(u32, u32)>) -> (r: Option<Result<Vec<Event>, String>>)
    requires
        barbarian.min_damage <= barbarian.max_damage,
        forall|q: (u32, u32)| possible_moves@.contains(q) <==> spec_reachable(game_map.map_tiles@,
            SearchMode::Movement, barbarian.spec_pos(), q, barbarian.movement_range as int),
        possible_moves@ == spec_moves(game_map.map_tiles@, barbarian),
    ensures
        r is None <==> !exists|mv: (u32, u32)| #[trigger] spec_attack_option(game_map.map_tiles@, barbarian, mv),
        r matches Some(res) ==> match res {
            Ok(v) => spec_barbarian_acts(*game_map, barbarian, v@, Ok(())),
            Err(e) => spec_barbarian_acts(*game_map, barbarian, Seq::empty(), Err(e)),
        },
{
    let ghost m = game_map.map_tiles@;
    let mut idx: usize = 0;
    while idx < possible_moves.len()
        invariant
            idx <= possible_moves@.len(),
            m == game_map.map_tiles@,
            barbarian.min_damage <= barbarian.max_damage,
            forall|q: (u32, u32)| possible_moves@.contains(q) <==> spec_reachable(m,
                SearchMode::Movement, barbarian.spec_pos(), q, barbarian.movement_range as int),
            forall|j: int, q: (u32, u32)| 0 <= j < idx ==> !#[trigger] spec_target(m, barbarian, possible_moves@[j], q),
            possible_moves@ == spec_moves(m, barbarian),
            forall|j: int| 0 <= j < idx ==> (#[trigger] spec_targets_from(m, barbarian, spec_moves(m, barbarian)[j])).len() == 0,
        decreases possible_moves@.len() - idx,
    {
        let mv = possible_moves[idx];
        let attacks = barbarian.get_tiles_can_attack_from_pos(mv, &game_map.map_tiles);
        if attacks.len() > 0 {
            let q = attacks[0];
            assert(attacks@.contains(q));
            assert(possible_moves@.contains(mv));
            assert(spec_target(m, barbarian, mv, q));
            assert(spec_attack_option(m, barbarian, mv));
            assert(spec_first_attack(m, barbarian, idx as int));
            let target = match game_map.get_unit(&q) {
                Ok(t) => t,
                Err(e) => {
                    return Some(Err(e));
                },
            };
            let damage_done = barbarian.get_attack_damage(&target);
            let mut v: Vec<Event> = Vec::new();
            v.push(Event::create(EVENT_MOVE, 0, (barbarian.x, barbarian.y), mv, 0));
            v.push(Event::create(EVENT_ATTACK, 0, mv, q, damage_done as u8));
            assert(v@ =~= spec_attack_events(barbarian, mv, q, damage_done));
            return Some(Ok(v));
        }
        proof {
            assert(spec_targets_from(m, barbarian, spec_moves(m, barbarian)[idx as int]).len() == 0);
            assert forall|j: int, q: (u32, u32)| 0 <= j < idx + 1 implies !#[trigger] spec_target(m, barbarian, possible_moves@[j], q) by {
                if j == idx && spec_target(m, barbarian, mv, q) {
                    assert(attacks@.contains(q));
                }
            }
        }
        idx += 1;
    }
    proof {
        assert forall|mv: (u32, u32)| !#[trigger] spec_attack_option(m, barbarian, mv) by {
            if spec_attack_option(m, barbarian, mv) {
                assert(possible_moves@.contains(mv));
                let j = choose|j: int| 0 <= j < possible_moves@.len() && possible_moves@[j] == mv;
                let q = choose|q: (u32, u32)| #[trigger] spec_target(m, barbarian, mv, q);
                assert(!spec_target(m, barbarian, possible_moves@[j], q));
            }
        }
    }
    None
}

/// Where barbarian `u` roams, trying the directions in a random order until
/// one is allowed; `None` if none is.
fn roam(m: &crate::tile_map::TileMap, u: Unit, possible_moves: &Vec<(u32, u32)>) -> (r: Option<(u32, u32)>)
    requires
        spec_roam_safe(u),
        forall|q: (u32, u32)| possible_moves@.contains(q) <==> spec_reachable(m@,
            SearchMode::Movement, u.spec_pos(), q, u.movement_range as int),
    ensures
        r is None ==> forall|d: int| 0 <= d < 5 ==> !spec_roam_ok(m@, u, #[trigger] spec_roam_step(u.x, u.y, d)),
        r matches Some(p) ==> exists|d: int| 0 <= d < 5 && p == #[trigger] spec_roam_step(u.x, u.y, d) && spec_roam_ok(m@, u, p),
{
    let mut directions: Vec<u32> = vec![0, 1, 2, 3, 4];
    assert(directions@ =~= seq![0u32, 1, 2, 3, 4]);
    while directions.len() > 0
        invariant
            spec_roam_safe(u),
            forall|q: (u32, u32)| possible_moves@.contains(q) <==> spec_reachable(m@,
                SearchMode::Movement, u.spec_pos(), q, u.movement_range as int),
            directions@.no_duplicates(),
            forall|j: int| 0 <= j < directions@.len() ==> #[trigger] directions@[j] < 5,
            forall|d: int| 0 <= d < 5 && !directions@.contains(d as u32) ==> !spec_roam_ok(m@, u, #[trigger] spec_roam_step(u.x, u.y, d)),
        decreases directions@.len(),
    {
        let index = match choose_below(directions.len()) {
            Some(k) => k,
            None => 0,
        };
        let ghost before = directions@;
        let direction_to_move = directions.swap_remove(index);
        let potential_move: (u32, u32) = if direction_to_move == 0 {
            (u.x, u.y - 1)
        } else if direction_to_move == 1 {
            (u.x + 1, u.y)
        } else if direction_to_move == 2 {
            (u.x, u.y + 1)
        } else if direction_to_move == 3 {
            (u.x - 1, u.y)
        } else {
            (u.x, u.y)
        };
        assert(potential_move == spec_roam_step(u.x, u.y, direction_to_move as int));
        let dx: i64 = potential_move.0 as i64 - u.starting_x as i64;
        let dy: i64 = potential_move.1 as i64 - u.starting_y as i64;
        let adx: i64 = if dx >= 0 { dx } else { -dx };
        let ady: i64 = if dy >= 0 { dy } else { -dy };
        if adx + ady <= 3 && contains_pos(possible_moves, potential_move) {
            return Some(potential_move);
        }
        proof {
            assert(before[index as int] == direction_to_move);
            assert forall|d: int| 0 <= d < 5 && !directions@.contains(d as u32) implies !spec_roam_ok(m@, u, #[trigger] spec_roam_step(u.x, u.y, d)) by {
                if d != direction_to_move as int {
                    if before.contains(d as u32) {
                        let j = choose|j: int| 0 <= j < before.len() && before[j] == d as u32;
                        if j == before.len() - 1 {
                            assert(directions@[index as int] == d as u32);
                        } else {
                            assert(directions@[j] == d as u32);
                        }
                    }
                }
            }
            assert(directions@.no_duplicates()) by {
                assert forall|a: int, b: int| 0 <= a < directions@.len() && 0 <= b < directions@.len() && a != b implies directions@[a] != directions@[b] by {
                    let a2 = if a == index && index < directions@.len() { before.len() - 1 } else { a };
                    let b2 = if b == index && index < directions@.len() { before.len() - 1 } else { b };
                    assert(directions@[a] == before[a2]);
                    assert(directions@[b] == before[b2]);
                }
            }
            assert forall|j: int| 0 <= j < directions@.len() implies #[trigger] directions@[j] < 5 by {
                let j2 = if j == index && index < directions@.len() { before.len() - 1 } else { j };
                assert(directions@[j] == before[j2]);
            }
        }
    }
    proof {
        assert forall|d: int| 0 <= d < 5 implies !spec_roam_ok(m@, u, #[trigger] spec_roam_step(u.x, u.y, d)) by {
            assert(!directions@.contains(d as u32));
        }
    }
    None
}

/// Whether every barbarian of `game_map` can take part in the barbarians'
/// turn (see `spec_roam_safe`).
pub fn barbarians_ready(game_map: &GameMap) -> (b: bool)
    ensures
        b == (forall|p: (u32, u32)| #[trigger] game_map.barbarian_units@.contains_key(p)
            ==> spec_roam_safe(game_map.barbarian_units@[p])),
{
    let v = game_map.barbarian_units.values();
    let mut i: usize = 0;
    while i < v.len()
        invariant
            i <= v@.len(),
            forall|j: int| 0 <= j < v@.len() ==> game_map.barbarian_units@.contains_key(#[trigger] v@[j].spec_pos())
                && game_map.barbarian_units@[v@[j].spec_pos()] == v@[j],
            forall|p: (u32, u32)| game_map.barbarian_units@.contains_key(p) <==> crate::unit_map::spec_has_unit_at(v@, p),
            forall|j: int| 0 <= j < i ==> spec_roam_safe(#[trigger] v@[j]),
        decreases v@.len() - i,
    {
        let u = v[i];
        if !(1 <= u.x && u.x <= 0x3fff_ffff && 1 <= u.y && u.y <= 0x3fff_ffff && u.starting_x <= 0x3fff_ffff
            && u.starting_y <= 0x3fff_ffff && u.min_damage <= u.max_damage) {
            proof {
                assert(game_map.barbarian_units@.contains_key(v@[i as int].spec_pos()));
            }
            return false;
        }
        i += 1;
    }
    proof {
        assert forall|p: (u32, u32)| #[trigger] game_map.barbarian_units@.contains_key(p)
            implies spec_roam_safe(game_map.barbarian_units@[p]) by {
            let j = choose|j: int| 0 <= j < v@.len() && (#[trigger] v@[j]).spec_pos() == p;
            assert(game_map.barbarian_units@[v@[j].spec_pos()] == v@[j]);
        }
    }
    true
}

/// One step of the barbarians' turn, once the turn banner has gone: the
/// first barbarian that has not moved attacks or roams; when all have moved,
/// the turn ends.
pub fn handle_barbarian_turn(game_map: &mut GameMap) -> (r: Result<(), String>)
    requires
        forall|p: (u32, u32)| #[trigger] old(game_map).barbarian_units@.contains_key(p)
            ==> spec_roam_safe(old(game_map).barbarian_units@[p]),
    ensures
        old(game_map).banner.banner_visible ==> r is Ok && spec_unchanged(*old(game_map), *final(game_map)),
        !old(game_map).banner.banner_visible ==> {
            &&& final(game_map).event_list@.len() >= old(game_map).event_list@.len()
            &&& final(game_map).event_list@.subrange(0, old(game_map).event_list@.len() as int) == old(game_map).event_list@
            &&& spec_unchanged(*old(game_map), (GameMap { event_list: old(game_map).event_list, ..*final(game_map) }))
            &&& ({
                let ev = final(game_map).event_list@.subrange(old(game_map).event_list@.len() as int, final(game_map).event_list@.len() as int);
                if forall|p: (u32, u32)| #[trigger] old(game_map).barbarian_units@.contains_key(p)
                    ==> old(game_map).barbarian_units@[p].has_moved {
                    r is Ok && ev == seq![Event {
                        action: EVENT_END_TURN,
                        id: EVENT_ID_BARBARIAN,
                        from_pos: (0, 0),
                        to_pos: (0, 0),
                        value: 0,
                        from_self: true,
                    }]
                } else {
                    exists|u: Unit| {
                        &&& old(game_map).barbarian_units@.contains_key(u.spec_pos())
                        &&& old(game_map).barbarian_units@[u.spec_pos()] == u
                        &&& !u.has_moved
                        &&& #[trigger] spec_barbarian_acts(*old(game_map), u, ev, r)
                    }
                }
            })
        },
{
    if game_map.banner.banner_visible {
        return Ok(());
    }
    let ghost g0 = *game_map;
    let barbarian = match game_map.barbarian_units.find_unmoved() {
        Some(b) => b,
        None => {
            game_map.event_list.push(Event::create(EVENT_END_TURN, EVENT_ID_BARBARIAN, (0, 0), (0, 0), 0));
            assert(game_map.event_list@.subrange(0, g0.event_list@.len() as int) =~= g0.event_list@);
            assert(game_map.event_list@.subrange(g0.event_list@.len() as int, game_map.event_list@.len() as int) =~= seq![Event {
                action: EVENT_END_TURN,
                id: EVENT_ID_BARBARIAN,
                from_pos: (0, 0),
                to_pos: (0, 0),
                value: 0,
                from_self: true,
            }]);
            return Ok(());
        },
    };
    assert(spec_roam_safe(barbarian));
    let possible_moves = barbarian.get_tiles_in_movement_range(&game_map.map_tiles);
    let ev: Vec<Event>;
    let res: Result<(), String>;
    match attack_from_range(game_map, barbarian, &possible_moves) {
        Some(Ok(v)) => {
            ev = v;
            res = Ok(());
        },
        Some(Err(e)) => {
            assert(spec_barbarian_acts(g0, barbarian, Seq::empty(), Err(e)));
            assert(game_map.event_list@.subrange(0, g0.event_list@.len() as int) =~= g0.event_list@);
            assert(game_map.event_list@.subrange(g0.event_list@.len() as int, game_map.event_list@.len() as int) =~= Seq::<Event>::empty());
            return Err(e);
        },
        None => {
            let mut v: Vec<Event> = Vec::new();
            match roam(&game_map.map_tiles, barbarian, &possible_moves) {
                Some(p) => {
                    v.push(Event::create(EVENT_MOVE, 0, (barbarian.x, barbarian.y), p, 0));
                    assert(v@ =~= seq![spec_move_event(barbarian, p)]);
                },
                None => {},
            }
            ev = v;
            res = Ok(());
        },
    }
    let mut i: usize = 0;
    let ghost start = game_map.event_list@;
    while i < ev.len()
        invariant
            i <= ev@.len(),
            game_map.event_list@ == start + ev@.take(i as int),
            g0 == (GameMap { event_list: g0.event_list, ..*game_map }),
            start == g0.event_list@,
        decreases ev@.len() - i,
    {
        game_map.event_list.push(ev[i]);
        assert(ev@.take(i + 1) =~= ev@.take(i as int).push(ev@[i as int]));
        i += 1;
    }
    proof {
        assert(ev@.take(i as int) =~= ev@);
        assert(game_map.event_list@.subrange(0, g0.event_list@.len() as int) =~= g0.event_list@);
        assert(game_map.event_list@.subrange(g0.event_list@.len() as int, game_map.event_list@.len() as int) =~= ev@);
        assert(spec_barbarian_acts(g0, barbarian, ev@, res));
    }
    res
}

} // verus!
