//! The enemy's turn once its planner has chosen where each of its units
//! should stand: the units go there, or as near as they can get when two
//! plans name the same tile, and each then strikes the weakest unit it can
//! reach. How the planner chooses is its own affair.

use vstd::prelude::*;
use crate::codec::{Event, EVENT_END_TURN, EVENT_ID_ENEMY};
use crate::game_map::{DamageReport, GameMap, spec_same_but_board, spec_same_but_board_and_reports};
use crate::population::placement_taken_before;
use crate::team::Team;
use crate::tile::Tile;
use crate::unit::{Unit, walk_ends, spec_attack_targets, spec_damaged, spec_hit_threshold, spec_walk, spec_walk_ends,
    spec_walk_increment, spec_walk_result};
use crate::unit_map::{UnitMap, spec_distinct_positions};

verus! {

/// The tiles `m` with the tile under `key`, if there is one, holding a unit of `team`.
pub open spec fn spec_team_marked(m: Map<(u32, u32), Tile>, key: (u32, u32), team: Option<Team>) -> Map<(u32, u32), Tile> {
    if m.contains_key(key) {
        m.insert(key, Tile { contained_unit_team: team, ..m[key] })
    } else {
        m
    }
}

/// Where the walk from `from` back toward `stop` ends, when it does.
pub open spec fn spec_walk_end(m: Map<(u32, u32), Tile>, stop: (u32, u32), from: (u32, u32)) -> (u32, u32) {
    choose|r: (u32, u32)| spec_walk_result(m, stop, from, r)
}

/// A walk that ends has one end.
pub proof fn lemma_walk_end_unique(m: Map<(u32, u32), Tile>, stop: (u32, u32), from: (u32, u32), r: (u32, u32))
    requires
        spec_walk_ends(m, stop, from),
        spec_walk_result(m, stop, from, r),
    ensures
        r == spec_walk_end(m, stop, from),
{
    let r0 = spec_walk_end(m, stop, from);
    assert(spec_walk_result(m, stop, from, r0));
    let f = choose|fuel: nat| #[trigger] spec_walk(m, stop, from.0 as i32, from.1 as i32,
        spec_walk_increment(from.0, stop.0), spec_walk_increment(from.1, stop.1), fuel) is Some;
    assert(spec_walk(m, stop, from.0 as i32, from.1 as i32,
        spec_walk_increment(from.0, stop.0), spec_walk_increment(from.1, stop.1), f) == Some(r));
}

/// The moves of the first `n` units of `units` toward their planned places
/// `placements`, each from where the unit stands to where it goes, and the
/// tiles once each of them has left its tile for its new one. A unit whose
/// place an earlier unit's plan already named goes to the end of the walk
/// from that place back toward itself. `None` when such a walk never ends.
pub open spec fn spec_plan(
    tiles: Map<(u32, u32), Tile>,
    units: Seq<Unit>,
    placements: Seq<(u32, u32)>,
    n: nat,
) -> Option<(Map<(u32, u32), Tile>, Seq<((u32, u32), (u32, u32))>)>
    decreases n,
{
    if n == 0 {
        Some((tiles, Seq::empty()))
    } else {
        match spec_plan(tiles, units, placements, (n - 1) as nat) {
            None => None,
            Some(prev) => {
                let t = prev.0;
                let u = units[n - 1];
                let want = placements[n - 1];
                let taken = placements.take(n - 1).contains(want);
                if taken && !spec_walk_ends(t, u.spec_pos(), want) {
                    None
                } else {
                    let dest = if taken { spec_walk_end(t, u.spec_pos(), want) } else { want };
                    Some((
                        spec_team_marked(spec_team_marked(t, (u.y, u.x), None), (dest.1, dest.0), Some(Team::Enemy)),
                        prev.1.push((u.spec_pos(), dest)),
                    ))
                }
            },
        }
    }
}

/// A plan that goes through for `n` units goes through for fewer, and moves
/// each unit from where it stands.
pub proof fn lemma_plan_prefix(
    tiles: Map<(u32, u32), Tile>,
    units: Seq<Unit>,
    placements: Seq<(u32, u32)>,
    m: nat,
    n: nat,
)
    requires
        m <= n,
        spec_plan(tiles, units, placements, n) is Some,
    ensures
        spec_plan(tiles, units, placements, m) is Some,
        spec_plan(tiles, units, placements, n).unwrap().1.len() == n,
        forall|j: int| 0 <= j < n ==> (#[trigger] spec_plan(tiles, units, placements, n).unwrap().1[j]).0 == units[j].spec_pos(),
    decreases n,
{
    if n > 0 {
        lemma_plan_prefix(tiles, units, placements, if m == n { (n - 1) as nat } else { m }, (n - 1) as nat);
        let prev = spec_plan(tiles, units, placements, (n - 1) as nat).unwrap();
        let cur = spec_plan(tiles, units, placements, n).unwrap();
        assert forall|j: int| 0 <= j < n implies (#[trigger] cur.1[j]).0 == units[j].spec_pos() by {
            if j < n - 1 {
                assert(cur.1[j] == prev.1[j]);
            }
        }
    }
}

/// Moves the units of `units` toward their planned places (see
/// `spec_plan`), marking the tiles they leave and reach, and returns the moves.
fn plan_moves(tiles: &mut crate::tile_map::TileMap, units: &Vec<Unit>, placements: &Vec<(u32, u32)>) -> (moves: Vec<((u32, u32), (u32, u32))>)
    requires
        placements@.len() <= units@.len(),
        spec_plan(old(tiles)@, units@, placements@, placements@.len() as nat) is Some,
    ensures
        (final(tiles)@, moves@) == spec_plan(old(tiles)@, units@, placements@, placements@.len() as nat).unwrap(),
{
    let mut moves: Vec<((u32, u32), (u32, u32))> = Vec::new();
    let mut i: usize = 0;
    while i < placements.len()
        invariant
            i <= placements@.len(),
            placements@.len() <= units@.len(),
            spec_plan(old(tiles)@, units@, placements@, placements@.len() as nat) is Some,
            spec_plan(old(tiles)@, units@, placements@, i as nat) == Some((tiles@, moves@)),
        decreases placements@.len() - i,
    {
        proof {
            lemma_plan_prefix(old(tiles)@, units@, placements@, (i + 1) as nat, placements@.len() as nat);
        }
        let u = units[i];
        let want = placements[i];
        let dest = if placement_taken_before(placements, &want, i) {
            let d = u.get_closest_move(want, tiles);
            proof {
                lemma_walk_end_unique(tiles@, u.spec_pos(), want, d);
            }
            d
        } else {
            want
        };
        moves.push(((u.x, u.y), dest));
        tiles.update_team((u.y, u.x), None);
        tiles.update_team((dest.1, dest.0), Some(Team::Enemy));
        i += 1;
    }
    moves
}

/// The unit an attack on unit position `q` of game `g` hits: the player's
/// unit there when the tile says it holds one of the player's, else the
/// barbarian there, if any.
pub open spec fn spec_victim(g: GameMap, q: (u32, u32)) -> Option<Unit> {
    let k = (q.1, q.0);
    if !g.map_tiles@.contains_key(k) {
        None
    } else if g.map_tiles@[k].contained_unit_team == Some(Team::Player) {
        g.player_units@.get(q)
    } else {
        g.barbarian_units@.get(q)
    }
}

/// Whether the tile at unit position `q` of game `g` holds a unit with
/// less than 1000 health.
pub open spec fn spec_light(g: GameMap, q: (u32, u32)) -> bool {
    spec_victim(g, q) is Some && spec_victim(g, q)->0.hp < 1000
}

/// Whether the `k`th of the tiles `t` is the target picked among them in
/// game `g`: the first whose unit has the least health below 1000, or the
/// first tile when no unit there has less than 1000.
pub open spec fn spec_first_weakest(g: GameMap, t: Seq<(u32, u32)>, k: int) -> bool {
    &&& 0 <= k < t.len()
    &&& (exists|j: int| 0 <= j < t.len() && #[trigger] spec_light(g, t[j])) ==> {
        &&& spec_light(g, t[k])
        &&& forall|j: int| 0 <= j < t.len() && #[trigger] spec_light(g, t[j])
            ==> spec_victim(g, t[k])->0.hp <= spec_victim(g, t[j])->0.hp
        &&& forall|j: int| 0 <= j < k && #[trigger] spec_light(g, t[j])
            ==> spec_victim(g, t[k])->0.hp < spec_victim(g, t[j])->0.hp
    }
    &&& !(exists|j: int| 0 <= j < t.len() && #[trigger] spec_light(g, t[j])) ==> k == 0
}

/// Whether `d` is damage that `u` can roll against `v`: none, or between its
/// least and its most damage; none when it cannot hit `v` at all, and
/// between its least and its most when it is sure to hit.
pub open spec fn spec_rolled(u: Unit, v: Unit, d: u32) -> bool {
    &&& d == 0 || u.min_damage <= d <= u.max_damage
    &&& spec_hit_threshold(u, v) == 0 ==> d == 0
    &&& spec_hit_threshold(u, v) >= 100 ==> u.min_damage <= d <= u.max_damage
}

/// The player's units or the barbarians of `g`, as the tile at unit
/// position `q` says.
pub open spec fn spec_victim_side(g: GameMap, q: (u32, u32)) -> Map<(u32, u32), Unit> {
    if spec_on_player_tile(g, q) { g.player_units@ } else { g.barbarian_units@ }
}

pub open spec fn spec_on_player_tile(g: GameMap, q: (u32, u32)) -> bool {
    g.map_tiles@.contains_key((q.1, q.0)) && g.map_tiles@[(q.1, q.0)].contained_unit_team == Some(Team::Player)
}

/// What `u`'s attack on `c` for `d` damage makes of `before`: a unit with no
/// more health than the damage is taken off its side and its tile freed;
/// otherwise it takes the damage and the damage is reported above it.
pub open spec fn spec_strike(before: GameMap, after: GameMap, u: Unit, c: (u32, u32), v: Unit, d: u32) -> bool {
    let player = spec_on_player_tile(before, c);
    let side = spec_victim_side(before, c);
    let new_side = if v.hp <= d { side.remove(c) } else { side.insert(c, spec_damaged(v, d, u.ranged_attacker)) };
    &&& player ==> after.player_units@ == new_side && after.barbarian_units@ == before.barbarian_units@
    &&& !player ==> after.barbarian_units@ == new_side && after.player_units@ == before.player_units@
    &&& v.hp <= d ==> after.map_tiles@ == spec_team_marked(before.map_tiles@, (c.1, c.0), None)
        && after.damage_reports@ == before.damage_reports@
    &&& v.hp > d ==> after.map_tiles@ == before.map_tiles@
        && after.damage_reports@ == before.damage_reports@.push(DamageReport {
            damage: d,
            i: if v.y >= 1 { (v.y - 1) as u32 } else { v.y },
            j: v.x,
        })
}

/// Whether `after` is `before` once the enemy unit standing at `mv.0` has
/// gone to `mv.1` and attacked: when it can attack anything, it picks the
/// weakest of the tiles it can attack, in the order its attack search finds
/// them (see `spec_first_weakest`), and strikes the unit there, if any, with
/// damage it rolled.
#[verifier::opaque]
pub open spec fn spec_unit_acts(before: GameMap, after: GameMap, mv: ((u32, u32), (u32, u32))) -> bool {
    let u = Unit { x: mv.1.0, y: mv.1.1, ..before.enemy_units@[mv.0] };
    let t = spec_attack_targets(before.map_tiles@, u.spec_pos(), u.attack_range as nat, u.team);
    &&& after.enemy_units@ == before.enemy_units@.remove(mv.0).insert(mv.1, u)
    &&& spec_same_but_board_and_reports(before, after)
    &&& if t.len() > 0 {
        exists|k: int| #[trigger] spec_first_weakest(before, t, k) && match spec_victim(before, t[k]) {
            None => spec_untouched(before, after),
            Some(v) => exists|d: u32| #[trigger] spec_rolled(u, v, d) && spec_strike(before, after, u, t[k], v, d),
        }
    } else {
        spec_untouched(before, after)
    }
}

/// Whether the tiles, the player's units, the barbarians and the damage
/// reports of `a` and `b` are the same.
pub open spec fn spec_untouched(a: GameMap, b: GameMap) -> bool {
    &&& b.map_tiles@ == a.map_tiles@
    &&& b.player_units@ == a.player_units@
    &&& b.barbarian_units@ == a.barbarian_units@
    &&& b.damage_reports@ == a.damage_reports@
}

fn victim_at(g: &GameMap, q: (u32, u32)) -> (r: Option<Unit>)
    ensures
        r == spec_victim(*g, q),
{
    match g.map_tiles.get((q.1, q.0)) {
        None => None,
        Some(t) => match t.contained_unit_team {
            Some(Team::Player) => g.player_units.get(q),
            _ => g.barbarian_units.get(q),
        },
    }
}

/// The pick among tiles depends only on the units that stand on them.
proof fn lemma_first_weakest_same_victims(g1: GameMap, g2: GameMap, t: Seq<(u32, u32)>, k: int)
    requires
        spec_first_weakest(g1, t, k),
        forall|q: (u32, u32)| #[trigger] spec_victim(g1, q) == spec_victim(g2, q),
    ensures
        spec_first_weakest(g2, t, k),
{
    assert(spec_victim(g1, t[k]) == spec_victim(g2, t[k]));
    if exists|j: int| 0 <= j < t.len() && #[trigger] spec_light(g2, t[j]) {
        let j0 = choose|j: int| 0 <= j < t.len() && #[trigger] spec_light(g2, t[j]);
        assert(spec_victim(g1, t[j0]) == spec_victim(g2, t[j0]));
        assert(spec_light(g1, t[j0]));
        assert forall|j: int| 0 <= j < t.len() && #[trigger] spec_light(g2, t[j])
            implies spec_victim(g2, t[k])->0.hp <= spec_victim(g2, t[j])->0.hp by {
            assert(spec_victim(g1, t[j]) == spec_victim(g2, t[j]));
            assert(spec_light(g1, t[j]));
        }
        assert forall|j: int| 0 <= j < k && #[trigger] spec_light(g2, t[j])
            implies spec_victim(g2, t[k])->0.hp < spec_victim(g2, t[j])->0.hp by {
            assert(spec_victim(g1, t[j]) == spec_victim(g2, t[j]));
            assert(spec_light(g1, t[j]));
        }
    } else {
        if exists|j: int| 0 <= j < t.len() && #[trigger] spec_light(g1, t[j]) {
            let j0 = choose|j: int| 0 <= j < t.len() && #[trigger] spec_light(g1, t[j]);
            assert(spec_victim(g1, t[j0]) == spec_victim(g2, t[j0]));
            assert(spec_light(g2, t[j0]));
        }
    }
}

/// Where among the tiles `targets` the target picked stands (see `spec_first_weakest`).
fn weakest_index(g: &GameMap, targets: &Vec<(u32, u32)>) -> (k: usize)
    requires
        targets@.len() > 0,
    ensures
        spec_first_weakest(*g, targets@, k as int),
{
    let ghost t = targets@;
    let mut chosen: usize = 0;
    let mut least: u32 = 1000;
    let mut i: usize = 0;
    while i < targets.len()
        invariant
            t == targets@,
            i <= t.len(),
            t.len() > 0,
            chosen < t.len(),
            least <= 1000,
            least < 1000 ==> chosen < i && spec_light(*g, t[chosen as int]) && spec_victim(*g, t[chosen as int])->0.hp == least,
            least == 1000 ==> chosen == 0 && forall|j: int| 0 <= j < i ==> !#[trigger] spec_light(*g, t[j]),
            forall|j: int| 0 <= j < i && #[trigger] spec_light(*g, t[j]) ==> least <= spec_victim(*g, t[j])->0.hp,
            forall|j: int| 0 <= j < chosen && #[trigger] spec_light(*g, t[j]) ==> least < spec_victim(*g, t[j])->0.hp,
        decreases t.len() - i,
    {
        let q = targets[i];
        match victim_at(g, q) {
            Some(v) => {
                if v.hp < least {
                    least = v.hp;
                    chosen = i;
                }
            },
            None => {},
        }
        i += 1;
    }
    proof {
        if exists|j: int| 0 <= j < t.len() && #[trigger] spec_light(*g, t[j]) {
            let j = choose|j: int| 0 <= j < t.len() && #[trigger] spec_light(*g, t[j]);
            assert(least < 1000);
        }
    }
    chosen
}

/// The enemy unit standing at `mv.0` goes to `mv.1` and attacks (see `spec_unit_acts`).
fn unit_acts(game_map: &mut GameMap, mv: ((u32, u32), (u32, u32)))
    requires
        old(game_map).enemy_units@.contains_key(mv.0),
        old(game_map).enemy_units@[mv.0].min_damage <= old(game_map).enemy_units@[mv.0].max_damage,
    ensures
        spec_unit_acts(*old(game_map), *final(game_map), mv),
        final(game_map).enemy_units@ == old(game_map).enemy_units@.remove(mv.0).insert(
            mv.1,
            Unit { x: mv.1.0, y: mv.1.1, ..old(game_map).enemy_units@[mv.0] },
        ),
        spec_same_but_board_and_reports(*old(game_map), *final(game_map)),
{
    let ghost before = *old(game_map);
    let mut active = match game_map.enemy_units.remove(mv.0) {
        Some(u) => u,
        None => {
            return;
        },
    };
    active.update_pos(mv.1.0, mv.1.1);
    let ghost u = Unit { x: mv.1.0, y: mv.1.1, ..before.enemy_units@[mv.0] };
    assert(active == u);
    let targets = active.get_tiles_can_attack(&game_map.map_tiles);
    let ghost mut wc: (u32, u32) = (0, 0);
    let ghost mut wk: int = 0;
    let ghost mut wd: u32 = 0;
    if targets.len() > 0 {
        let k = weakest_index(game_map, &targets);
        let c = targets[k];
        proof {
            wc = c;
            wk = k as int;
            lemma_first_weakest_same_victims(*game_map, before, targets@, wk);
        }
        match victim_at(game_map, c) {
            None => {},
            Some(v) => {
                let d = active.get_attack_damage(&v);
                proof {
                    wd = d;
                }
                let player = match game_map.map_tiles.get((c.1, c.0)) {
                    Some(t) => match t.contained_unit_team {
                        Some(Team::Player) => true,
                        _ => false,
                    },
                    None => false,
                };
                if v.hp <= d {
                    if player {
                        let _ = game_map.player_units.remove(c);
                    } else {
                        let _ = game_map.barbarian_units.remove(c);
                    }
                    game_map.map_tiles.update_team((c.1, c.0), None);
                } else {
                    proof {
                        if player {
                            before.player_units.lemma_keyed_by_pos(c);
                        } else {
                            before.barbarian_units.lemma_keyed_by_pos(c);
                        }
                    }
                    let mut hit = v;
                    hit.receive_damage(d, &active);
                    if player {
                        game_map.player_units.insert(hit);
                    } else {
                        game_map.barbarian_units.insert(hit);
                    }
                    let i = match hit.y.checked_sub(1) {
                        Some(y) => y,
                        None => hit.y,
                    };
                    game_map.damage_reports.push(DamageReport { damage: d, i, j: hit.x });
                }
            },
        }
    }
    game_map.enemy_units.insert(active);
    proof {
        reveal(spec_unit_acts);
        let after = *game_map;
        if targets@.len() > 0 {
            assert(spec_first_weakest(before, targets@, wk));
            assert(targets@[wk] == wc);
            match spec_victim(before, wc) {
                None => {
                    assert(spec_untouched(before, after));
                },
                Some(v) => {
                    assert(spec_rolled(u, v, wd));
                    assert(spec_strike(before, after, u, wc, v, wd));
                },
            }
        } else {
            assert(spec_untouched(before, after));
        }
    }
}

/// Whether `trace` is the succession of games the enemy's turn goes through
/// in `before` with the plan `placements`: first every unit's tile is left
/// for its new one, then the units act one after another.
pub open spec fn spec_enemy_trace(trace: Seq<GameMap>, before: GameMap, placements: Seq<(u32, u32)>) -> bool {
    let plan = spec_plan(before.map_tiles@, before.enemy_units.seq(), placements, placements.len() as nat).unwrap();
    &&& trace.len() == plan.1.len() + 1
    &&& trace[0].map_tiles@ == plan.0
    &&& spec_same_but_board(before, trace[0])
    &&& trace[0].player_units@ == before.player_units@
    &&& trace[0].enemy_units@ == before.enemy_units@
    &&& trace[0].barbarian_units@ == before.barbarian_units@
    &&& forall|k: int| 0 <= k < plan.1.len() ==> spec_unit_acts(#[trigger] trace[k], trace[k + 1], plan.1[k])
}

/// Whether the units of `m` can all roll damage.
pub open spec fn spec_damage_ranges_ok(m: Map<(u32, u32), Unit>) -> bool {
    forall|p: (u32, u32)| #[trigger] m.contains_key(p) ==> m[p].min_damage <= m[p].max_damage
}

/// The enemy's units follow the plan `placements` (see `spec_enemy_trace`):
/// the unit kept first goes to the first place, and so on; each then attacks
/// the weakest unit it can reach. A unit whose place an earlier unit's plan
/// already named goes to the nearest free tile found walking back toward it.
pub fn convert_state_to_action(placements: &Vec<(u32, u32)>, game_map: &mut GameMap)
    requires
        placements@.len() == old(game_map).enemy_units.seq().len(),
        spec_plan(old(game_map).map_tiles@, old(game_map).enemy_units.seq(), placements@, placements@.len() as nat) is Some,
        spec_damage_ranges_ok(old(game_map).enemy_units@),
    ensures
        exists|trace: Seq<GameMap>| #[trigger] spec_enemy_trace(trace, *old(game_map), placements@)
            && trace.last() == *final(game_map),
        spec_same_but_board_and_reports(*old(game_map), *final(game_map)),
{
    let ghost units = game_map.enemy_units.seq();
    let ghost plan = spec_plan(game_map.map_tiles@, units, placements@, placements@.len() as nat).unwrap();
    proof {
        lemma_plan_prefix(game_map.map_tiles@, units, placements@, 0, placements@.len() as nat);
    }
    let moves = plan_moves(&mut game_map.map_tiles, game_map.enemy_units.values(), placements);
    assert(spec_distinct_positions(units));
    assert(forall|i: int| 0 <= i < units.len() ==> game_map.enemy_units@.contains_key(#[trigger] units[i].spec_pos()));
    let ghost g0 = *game_map;
    let ghost mut trace: Seq<GameMap> = seq![g0];
    let mut k: usize = 0;
    while k < moves.len()
        invariant
            k <= moves@.len(),
            moves@ == plan.1,
            moves@.len() == placements@.len(),
            placements@.len() <= units.len(),
            spec_distinct_positions(units),
            forall|j: int| 0 <= j < moves@.len() ==> (#[trigger] moves@[j]).0 == units[j].spec_pos(),
            trace.len() == k + 1,
            trace[0] == g0,
            trace[k as int] == *game_map,
            forall|j: int| 0 <= j < k ==> spec_unit_acts(#[trigger] trace[j], trace[j + 1], plan.1[j]),
            forall|j: int| k <= j < moves@.len() ==> game_map.enemy_units@.contains_key((#[trigger] moves@[j]).0),
            spec_damage_ranges_ok(game_map.enemy_units@),
            spec_same_but_board_and_reports(g0, *game_map),
        decreases moves@.len() - k,
    {
        let mv = moves[k];
        let ghost before = *game_map;
        unit_acts(game_map, mv);
        proof {
            trace = trace.push(*game_map);
            assert forall|j: int| k + 1 <= j < moves@.len() implies game_map.enemy_units@.contains_key((#[trigger] moves@[j]).0) by {
                assert(units[j].spec_pos() != units[k as int].spec_pos());
            }
            assert forall|j: int| 0 <= j < k + 1 implies spec_unit_acts(#[trigger] trace[j], trace[j + 1], plan.1[j]) by {
                if j < k {
                    assert(trace[j] == trace.drop_last()[j]);
                }
            }
        }
        k += 1;
    }
    proof {
        assert(spec_enemy_trace(trace, *old(game_map), placements@));
    }
}

/// Whether the enemy's units can follow the plan `placements` in `game_map`:
/// there is one place for each unit, every walk to a nearest free tile
/// ends, and every unit can roll damage.
pub open spec fn spec_plan_possible(game_map: GameMap, placements: Seq<(u32, u32)>) -> bool {
    &&& placements.len() == game_map.enemy_units.seq().len()
    &&& spec_plan(game_map.map_tiles@, game_map.enemy_units.seq(), placements, placements.len() as nat) is Some
    &&& spec_damage_ranges_ok(game_map.enemy_units@)
}

/// Whether the enemy's units can follow the plan `placements` (see `spec_plan_possible`).
pub fn plan_is_possible(game_map: &GameMap, placements: &Vec<(u32, u32)>) -> (b: bool)
    ensures
        b == spec_plan_possible(*game_map, placements@),
{
    let units = game_map.enemy_units.values();
    if placements.len() != units.len() {
        return false;
    }
    let mut d: usize = 0;
    while d < units.len()
        invariant
            d <= units@.len(),
            forall|j: int| 0 <= j < units@.len() ==> game_map.enemy_units@.contains_key((#[trigger] units@[j]).spec_pos())
                && game_map.enemy_units@[units@[j].spec_pos()] == units@[j],
            forall|j: int| 0 <= j < d ==> (#[trigger] units@[j]).min_damage <= units@[j].max_damage,
        decreases units@.len() - d,
    {
        if units[d].min_damage > units[d].max_damage {
            proof {
                let p = units@[d as int].spec_pos();
                assert(game_map.enemy_units@.contains_key(p));
            }
            return false;
        }
        d += 1;
    }
    assert(spec_damage_ranges_ok(game_map.enemy_units@)) by {
        assert forall|p: (u32, u32)| #[trigger] game_map.enemy_units@.contains_key(p) implies
            game_map.enemy_units@[p].min_damage <= game_map.enemy_units@[p].max_damage by {
            let j = choose|j: int| 0 <= j < units@.len() && (#[trigger] units@[j]).spec_pos() == p;
            assert(game_map.enemy_units@[units@[j].spec_pos()] == units@[j]);
        }
    }
    let ghost t0 = game_map.map_tiles@;
    let mut tiles = game_map.map_tiles.copy();
    let ghost mut moves: Seq<((u32, u32), (u32, u32))> = Seq::empty();
    let mut i: usize = 0;
    while i < placements.len()
        invariant
            i <= placements@.len(),
            placements@.len() <= units@.len(),
            units@ == game_map.enemy_units.seq(),
            t0 == game_map.map_tiles@,
            spec_plan(t0, units@, placements@, i as nat) == Some((tiles@, moves)),
        decreases placements@.len() - i,
    {
        let u = units[i];
        let want = placements[i];
        let dest = if placement_taken_before(placements, &want, i) {
            if !walk_ends(&tiles, (u.x, u.y), want) {
                proof {
                    if spec_plan(t0, units@, placements@, placements@.len() as nat) is Some {
                        lemma_plan_prefix(t0, units@, placements@, (i + 1) as nat, placements@.len() as nat);
                    }
                }
                return false;
            }
            let d = u.get_closest_move(want, &tiles);
            proof {
                lemma_walk_end_unique(tiles@, u.spec_pos(), want, d);
            }
            d
        } else {
            want
        };
        proof {
            moves = moves.push((u.spec_pos(), dest));
        }
        tiles.update_team((u.y, u.x), None);
        tiles.update_team((dest.1, dest.0), Some(Team::Enemy));
        i += 1;
    }
    true
}

/// The end of the enemy's turn, sent by this side.
pub open spec fn spec_enemy_end_turn() -> Event {
    Event { action: EVENT_END_TURN, id: EVENT_ID_ENEMY, from_pos: (0, 0), to_pos: (0, 0), value: 0, from_self: true }
}

/// The enemy's turn in a game against the computer, once its turn banner
/// has gone: the enemy's units follow the plan `placements` (see
/// `convert_state_to_action`) and the turn ends. While the banner shows,
/// nothing happens.
pub fn handle_enemy_turn(game_map: &mut GameMap, placements: &Vec<(u32, u32)>)
    requires
        !old(game_map).banner.banner_visible ==> spec_plan_possible(*old(game_map), placements@),
    ensures
        old(game_map).banner.banner_visible ==> *final(game_map) == *old(game_map),
        !old(game_map).banner.banner_visible ==> exists|trace: Seq<GameMap>| {
            &&& #[trigger] spec_enemy_trace(trace, *old(game_map), placements@)
            &&& final(game_map).event_list@ == trace.last().event_list@.push(spec_enemy_end_turn())
            &&& (GameMap { event_list: trace.last().event_list, ..*final(game_map) }) == trace.last()
        },
{
    if !game_map.banner.banner_visible {
        convert_state_to_action(placements, game_map);
        let ghost acted = *game_map;
        game_map.event_list.push(Event::create(EVENT_END_TURN, EVENT_ID_ENEMY, (0, 0), (0, 0), 0));
        proof {
            assert((GameMap { event_list: acted.event_list, ..*game_map }) == acted);
        }
    }
}

/// An enemy unit's sure strike deals damage: when every tile the enemy unit
/// at `mv.0`, once at `mv.1`, can attack holds a unit that it is sure to hit
/// (a hit threshold of 100 or more) and that has more health than its most
/// damage, its strike adds one damage report, of a damage between its least
/// and its most, and with a least damage of 1 or more one of those units
/// has less health than before.
pub proof fn lemma_enemy_sure_hit(before: GameMap, after: GameMap, mv: ((u32, u32), (u32, u32)))
    requires
        spec_unit_acts(before, after, mv),
        spec_attack_targets(before.map_tiles@, mv.1, before.enemy_units@[mv.0].attack_range as nat,
            before.enemy_units@[mv.0].team).len() > 0,
        forall|j: int| 0 <= j < spec_attack_targets(before.map_tiles@, mv.1, before.enemy_units@[mv.0].attack_range as nat,
            before.enemy_units@[mv.0].team).len() ==> {
            let q = #[trigger] spec_attack_targets(before.map_tiles@, mv.1, before.enemy_units@[mv.0].attack_range as nat,
                before.enemy_units@[mv.0].team)[j];
            &&& spec_victim(before, q) is Some
            &&& spec_hit_threshold(before.enemy_units@[mv.0], spec_victim(before, q)->0) >= 100
            &&& spec_victim(before, q)->0.hp > before.enemy_units@[mv.0].max_damage
        },
    ensures
        after.damage_reports@.len() == before.damage_reports@.len() + 1,
        before.enemy_units@[mv.0].min_damage <= after.damage_reports@.last().damage <= before.enemy_units@[mv.0].max_damage,
        before.enemy_units@[mv.0].min_damage >= 1 ==> exists|q: (u32, u32)| {
            &&& #[trigger] spec_victim_side(before, q).contains_key(q)
            &&& spec_victim_side(after, q).contains_key(q)
            &&& spec_victim_side(after, q)[q].hp < spec_victim_side(before, q)[q].hp
        },
{
    reveal(spec_unit_acts);
    let u0 = before.enemy_units@[mv.0];
    let u = Unit { x: mv.1.0, y: mv.1.1, ..u0 };
    let t = spec_attack_targets(before.map_tiles@, u.spec_pos(), u.attack_range as nat, u.team);
    assert(u.spec_pos() == mv.1);
    let k = choose|k: int| #[trigger] spec_first_weakest(before, t, k) && match spec_victim(before, t[k]) {
        None => spec_untouched(before, after),
        Some(v) => exists|d: u32| #[trigger] spec_rolled(u, v, d) && spec_strike(before, after, u, t[k], v, d),
    };
    let q = t[k];
    assert(spec_victim(before, q) is Some);
    let v = spec_victim(before, q)->0;
    assert(spec_hit_threshold(u, v) == spec_hit_threshold(u0, v));
    let d = choose|d: u32| #[trigger] spec_rolled(u, v, d) && spec_strike(before, after, u, q, v, d);
    assert(v.hp > d);
    assert(after.damage_reports@.last().damage == d);
    if u0.min_damage >= 1 {
        assert(spec_victim_side(before, q).contains_key(q));
        assert(spec_on_player_tile(after, q) == spec_on_player_tile(before, q));
        assert(spec_victim_side(after, q)[q] == spec_damaged(v, d, u.ranged_attacker));
    }
}

} // verus!
