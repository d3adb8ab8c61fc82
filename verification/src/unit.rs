//! Units: their stats, how they take and deal damage, and which tiles they
//! can move to and attack.

use vstd::prelude::*;
use crate::team::Team;
use crate::tile::{Tile, spec_unit_can_move_here};
use crate::tile_map::TileMap;
use crate::pathing::{SearchMode, search_area, spec_area, spec_reachable};
use crate::random::random_in_range;

verus! {

/// Guards are recognised by this maximum health: ranged attacks on them do half damage.
pub const GUARD_HEALTH_ID: u32 = 25;
/// Scouts are recognised by this maximum health: attacks on them are less accurate.
pub const SCOUT_HEALTH_ID: u32 = 9;

/// The class of a unit; the renderer picks the unit's sprite from its team and class.
#[derive(Clone, Copy, Debug, PartialEq, Eq, Structural)]
pub enum UnitKind {
    Melee,
    Archer,
    Mage,
    Guard,
    Scout,
}

/// A unit on the map. Its sprite and the state of its animations are kept by
/// the renderer beside it.
#[derive(Clone, Copy, Debug)]
pub struct Unit {
    pub x: u32,
    pub y: u32,
    pub team: Team,
    pub hp: u32,
    pub max_hp: u32,
    pub movement_range: u32,
    pub attack_range: u32,
    /// Chance in percent that an attack hits.
    pub accuracy: u32,
    pub min_damage: u32,
    pub max_damage: u32,
    pub kind: UnitKind,
    pub has_attacked: bool,
    pub has_moved: bool,
    /// Set when the unit takes damage, so that it is drawn tinted for a while.
    pub is_attacked: bool,
    pub ranged_attacker: bool,
    /// Where the unit started; barbarians roam within a small radius of it.
    pub starting_x: u32,
    pub starting_y: u32,
}

/// The accuracy of `attacker` against `target`: scouts are 20 points harder to hit.
pub open spec fn spec_hit_threshold(attacker: Unit, target: Unit) -> u32 {
    let debuff: u32 = if target.max_hp == SCOUT_HEALTH_ID { 20 } else { 0 };
    if attacker.accuracy >= debuff { (attacker.accuracy - debuff) as u32 } else { 0 }
}

/// The damage a unit with maximum health `target_max_hp` takes from `damage`
/// dealt by an attacker that attacks from range or not: guards halve ranged damage above 1.
pub open spec fn spec_damage_taken(target_max_hp: u32, ranged: bool, damage: u32) -> u32 {
    if target_max_hp == GUARD_HEALTH_ID && ranged && damage > 1 { damage / 2 } else { damage }
}

/// `target` after taking `damage` from a ranged or melee attacker: its health
/// goes down by the damage taken, not below zero, and it is marked as attacked.
pub open spec fn spec_damaged(target: Unit, damage: u32, ranged: bool) -> Unit {
    let taken = spec_damage_taken(target.max_hp, ranged, damage);
    Unit {
        hp: if target.hp >= taken { (target.hp - taken) as u32 } else { 0 },
        is_attacked: true,
        ..target
    }
}

/// Whether a unit may move onto the tile at unit position `q`.
pub open spec fn spec_free_at(m: Map<(u32, u32), Tile>, q: (u32, u32)) -> bool {
    m.contains_key((q.1, q.0)) && spec_unit_can_move_here(m[(q.1, q.0)])
}

/// Whether the tile at unit position `q` holds a unit of a team other than `team`.
pub open spec fn spec_holds_opponent(m: Map<(u32, u32), Tile>, q: (u32, u32), team: Team) -> bool {
    m.contains_key((q.1, q.0)) && (m[(q.1, q.0)].contained_unit_team matches Some(t) && t != team)
}

/// The tiles an attack from `from` reaching `range` steps can hit, in the
/// order the search finds them, without `from` itself.
pub open spec fn spec_attack_area(m: Map<(u32, u32), Tile>, from: (u32, u32), range: nat) -> Seq<(u32, u32)> {
    let a = spec_area(m, SearchMode::Attack, from, range);
    a.subrange(1, a.len() as int)
}

/// The tiles of `spec_attack_area` holding a unit of a team other than
/// `team`, in the same order.
pub open spec fn spec_attack_targets(m: Map<(u32, u32), Tile>, from: (u32, u32), range: nat, team: Team) -> Seq<(u32, u32)> {
    spec_attack_area(m, from, range).filter(|q: (u32, u32)| spec_holds_opponent(m, q, team))
}

/// The direction in which a walk from `from` toward `to` moves along one axis.
pub open spec fn spec_walk_increment(from: u32, to: u32) -> i32 {
    if from > to { -1i32 } else if from == to { 0i32 } else { 1i32 }
}

/// Walks from (`cx`, `cy`) one diagonal step at a time toward `stop`, and
/// returns the first free tile seen beside the walk: first the tile beside it
/// along x, then along y, then diagonally. Reaching `stop` ends the walk at
/// `stop`. `None` when `fuel` steps do not end the walk, or when a coordinate
/// would leave the range of `i32`.
pub open spec fn spec_walk(
    m: Map<(u32, u32), Tile>,
    stop: (u32, u32),
    cx: i32,
    cy: i32,
    ix: i32,
    iy: i32,
    fuel: nat,
) -> Option<(u32, u32)>
    decreases fuel,
{
    if fuel == 0 {
        None
    } else {
        let a = cx + ix;
        if !(i32::MIN <= a <= i32::MAX) {
            None
        } else if spec_free_at(m, ((a as i32) as u32, cy as u32)) {
            Some(((a as i32) as u32, cy as u32))
        } else {
            let b = cy + iy;
            if !(i32::MIN <= b <= i32::MAX) {
                None
            } else if spec_free_at(m, (cx as u32, (b as i32) as u32)) {
                Some((cx as u32, (b as i32) as u32))
            } else if spec_free_at(m, ((a as i32) as u32, (b as i32) as u32)) {
                Some(((a as i32) as u32, (b as i32) as u32))
            } else if (a as i32) == (stop.0 as i32) && (b as i32) == (stop.1 as i32) {
                Some(stop)
            } else {
                spec_walk(m, stop, a as i32, b as i32, ix, iy, (fuel - 1) as nat)
            }
        }
    }
}

/// Whether the walk from `from` toward `stop` ends.
pub open spec fn spec_walk_ends(m: Map<(u32, u32), Tile>, stop: (u32, u32), from: (u32, u32)) -> bool {
    exists|fuel: nat| #[trigger] spec_walk(m, stop, from.0 as i32, from.1 as i32,
        spec_walk_increment(from.0, stop.0), spec_walk_increment(from.1, stop.1), fuel) is Some
}

/// `r` is where the walk from `from` toward `stop` ends.
pub open spec fn spec_walk_result(m: Map<(u32, u32), Tile>, stop: (u32, u32), from: (u32, u32), r: (u32, u32)) -> bool {
    forall|fuel: nat| #[trigger] spec_walk(m, stop, from.0 as i32, from.1 as i32,
        spec_walk_increment(from.0, stop.0), spec_walk_increment(from.1, stop.1), fuel) is Some
        ==> spec_walk(m, stop, from.0 as i32, from.1 as i32,
        spec_walk_increment(from.0, stop.0), spec_walk_increment(from.1, stop.1), fuel) == Some(r)
}

/// More fuel does not change where a walk ends.
proof fn lemma_walk_fuel(m: Map<(u32, u32), Tile>, stop: (u32, u32), cx: i32, cy: i32, ix: i32, iy: i32, f1: nat, f2: nat)
    requires
        spec_walk(m, stop, cx, cy, ix, iy, f1) is Some,
        f1 <= f2,
    ensures
        spec_walk(m, stop, cx, cy, ix, iy, f2) == spec_walk(m, stop, cx, cy, ix, iy, f1),
    decreases f1,
{
    if f1 > 0 {
        let a = cx + ix;
        let b = cy + iy;
        if i32::MIN <= a <= i32::MAX && i32::MIN <= b <= i32::MAX
            && !spec_free_at(m, ((a as i32) as u32, cy as u32))
            && !spec_free_at(m, (cx as u32, (b as i32) as u32))
            && !spec_free_at(m, ((a as i32) as u32, (b as i32) as u32))
            && !((a as i32) == (stop.0 as i32) && (b as i32) == (stop.1 as i32)) {
            lemma_walk_fuel(m, stop, a as i32, b as i32, ix, iy, (f1 - 1) as nat, (f2 - 1) as nat);
        }
    }
}

pub(crate) fn free_at(map: &TileMap, q: (u32, u32)) -> (b: bool)
    ensures
        b == spec_free_at(map@, q),
{
    match map.get((q.1, q.0)) {
        Some(t) => t.unit_can_move_here(),
        None => false,
    }
}

fn walk_increment(from: u32, to: u32) -> (r: i32)
    ensures
        r == spec_walk_increment(from, to),
{
    if from > to { -1 } else if from == to { 0 } else { 1 }
}

/// Whether the walk from `from` toward `stop` ends (see `spec_walk`): it is
/// walked until it ends or a coordinate would leave the range of `i32`.
pub fn walk_ends(map: &TileMap, stop: (u32, u32), from: (u32, u32)) -> (b: bool)
    ensures
        b == spec_walk_ends(map@, stop, from),
{
    let ghost m = map@;
    let ix = walk_increment(from.0, stop.0);
    let iy = walk_increment(from.1, stop.1);
    let mut cx: i32 = from.0 as i32;
    let mut cy: i32 = from.1 as i32;
    let ghost mut steps: nat = 0;
    loop
        invariant
            m == map@,
            ix == spec_walk_increment(from.0, stop.0),
            iy == spec_walk_increment(from.1, stop.1),
            ix == 0 ==> cx == stop.0 as i32,
            iy == 0 ==> cy == stop.1 as i32,
            forall|f: nat| #[trigger] spec_walk(m, stop, from.0 as i32, from.1 as i32, ix, iy, f + steps)
                == spec_walk(m, stop, cx, cy, ix, iy, f),
            forall|f: nat| f <= steps ==> #[trigger] spec_walk(m, stop, from.0 as i32, from.1 as i32, ix, iy, f) is None,
        decreases (if ix > 0 { i32::MAX - cx } else if ix < 0 { cx - i32::MIN } else if iy > 0 {
            i32::MAX - cy } else if iy < 0 { cy - i32::MIN } else { 0 }),
    {
        let a = match cx.checked_add(ix) {
            Some(a) => a,
            None => {
                proof {
                    assert forall|f: nat| !(#[trigger] spec_walk(m, stop, from.0 as i32, from.1 as i32, ix, iy, f) is Some) by {
                        if f > steps {
                            assert(spec_walk(m, stop, from.0 as i32, from.1 as i32, ix, iy, ((f - steps) as nat) + steps)
                                == spec_walk(m, stop, cx, cy, ix, iy, (f - steps) as nat));
                        }
                    }
                }
                return false;
            },
        };
        if free_at(map, (a as u32, cy as u32)) {
            proof {
                assert(spec_walk(m, stop, from.0 as i32, from.1 as i32, ix, iy, 1 + steps) is Some);
            }
            return true;
        }
        let b = match cy.checked_add(iy) {
            Some(b) => b,
            None => {
                proof {
                    assert forall|f: nat| !(#[trigger] spec_walk(m, stop, from.0 as i32, from.1 as i32, ix, iy, f) is Some) by {
                        if f > steps {
                            assert(spec_walk(m, stop, from.0 as i32, from.1 as i32, ix, iy, ((f - steps) as nat) + steps)
                                == spec_walk(m, stop, cx, cy, ix, iy, (f - steps) as nat));
                        }
                    }
                }
                return false;
            },
        };
        if free_at(map, (cx as u32, b as u32)) || free_at(map, (a as u32, b as u32)) || (a == stop.0 as i32 && b == stop.1 as i32) {
            proof {
                assert(spec_walk(m, stop, from.0 as i32, from.1 as i32, ix, iy, 1 + steps) is Some);
            }
            return true;
        }
        proof {
            assert forall|f: nat| #[trigger] spec_walk(m, stop, from.0 as i32, from.1 as i32, ix, iy, f + (steps + 1))
                == spec_walk(m, stop, a, b, ix, iy, f) by {
                assert(spec_walk(m, stop, from.0 as i32, from.1 as i32, ix, iy, (f + 1) + steps)
                    == spec_walk(m, stop, cx, cy, ix, iy, f + 1));
            }
            assert forall|f: nat| f <= steps + 1 implies #[trigger] spec_walk(m, stop, from.0 as i32, from.1 as i32, ix, iy, f) is None by {
                if f == steps + 1 {
                    assert(spec_walk(m, stop, cx, cy, ix, iy, 1) == spec_walk(m, stop, a, b, ix, iy, 0));
                    assert(spec_walk(m, stop, from.0 as i32, from.1 as i32, ix, iy, 1 + steps)
                        == spec_walk(m, stop, cx, cy, ix, iy, 1));
                }
            }
            steps = steps + 1;
        }
        cx = a;
        cy = b;
    }
}

/// Where the walk from `from` toward `stop` ends (see `spec_walk`).
fn nearest_free_toward(map: &TileMap, stop: (u32, u32), from: (u32, u32)) -> (r: (u32, u32))
    requires
        spec_walk_ends(map@, stop, from),
    ensures
        spec_walk_result(map@, stop, from, r),
{
    let ghost m = map@;
    let x_increment = walk_increment(from.0, stop.0);
    let y_increment = walk_increment(from.1, stop.1);
    let mut current_x: i32 = from.0 as i32;
    let mut current_y: i32 = from.1 as i32;
    let ghost fuel0 = choose|fuel: nat| #[trigger] spec_walk(m, stop, from.0 as i32, from.1 as i32,
        spec_walk_increment(from.0, stop.0), spec_walk_increment(from.1, stop.1), fuel) is Some;
    let ghost target = spec_walk(m, stop, current_x, current_y, x_increment, y_increment, fuel0);
    let ghost mut fuel: nat = fuel0;
    proof {
        assert forall|f: nat| #[trigger] spec_walk(m, stop, from.0 as i32, from.1 as i32,
            spec_walk_increment(from.0, stop.0), spec_walk_increment(from.1, stop.1), f) is Some
            implies spec_walk(m, stop, from.0 as i32, from.1 as i32,
            spec_walk_increment(from.0, stop.0), spec_walk_increment(from.1, stop.1), f) == target by {
            if f <= fuel0 {
                lemma_walk_fuel(m, stop, from.0 as i32, from.1 as i32, x_increment, y_increment, f, fuel0);
            } else {
                lemma_walk_fuel(m, stop, from.0 as i32, from.1 as i32, x_increment, y_increment, fuel0, f);
            }
        }
    }
    loop
        invariant
            m == map@,
            target is Some,
            spec_walk(m, stop, current_x, current_y, x_increment, y_increment, fuel) == target,
            forall|f: nat| #[trigger] spec_walk(m, stop, from.0 as i32, from.1 as i32,
                spec_walk_increment(from.0, stop.0), spec_walk_increment(from.1, stop.1), f) is Some
                ==> spec_walk(m, stop, from.0 as i32, from.1 as i32,
                spec_walk_increment(from.0, stop.0), spec_walk_increment(from.1, stop.1), f) == target,
        decreases fuel,
    {
        let a = current_x + x_increment;
        if free_at(map, (a as u32, current_y as u32)) {
            return (a as u32, current_y as u32);
        }
        let b = current_y + y_increment;
        if free_at(map, (current_x as u32, b as u32)) {
            return (current_x as u32, b as u32);
        }
        if free_at(map, (a as u32, b as u32)) {
            return (a as u32, b as u32);
        }
        current_x = a;
        current_y = b;
        if current_x == stop.0 as i32 && current_y == stop.1 as i32 {
            return stop;
        }
        proof {
            fuel = (fuel - 1) as nat;
        }
    }
}

/// Where a unit of the castle at `castle_coords` spawns when it is meant to
/// spawn at `where_to_spawn`: there if that tile is free, else the first free
/// tile found walking from there toward the castle, else the castle.
pub fn respawn_loc(castle_coords: (u32, u32), map: &TileMap, where_to_spawn: (u32, u32)) -> (r: (u32, u32))
    requires
        map@.contains_key((where_to_spawn.1, where_to_spawn.0)),
        !spec_free_at(map@, where_to_spawn) ==> spec_walk_ends(map@, castle_coords, where_to_spawn),
    ensures
        spec_free_at(map@, where_to_spawn) ==> r == where_to_spawn,
        !spec_free_at(map@, where_to_spawn) ==> spec_walk_result(map@, castle_coords, where_to_spawn, r),
{
    if free_at(map, where_to_spawn) {
        where_to_spawn
    } else {
        nearest_free_toward(map, castle_coords, where_to_spawn)
    }
}

impl Unit {
    pub open spec fn spec_pos(&self) -> (u32, u32) {
        (self.x, self.y)
    }

    /// A unit at (`x`, `y`) with full health that has neither moved nor attacked.
    pub fn new(
        x: u32,
        y: u32,
        team: Team,
        hp: u32,
        movement_range: u32,
        attack_range: u32,
        accuracy: u32,
        min_damage: u32,
        max_damage: u32,
        kind: UnitKind,
        ranged_attacker: bool,
    ) -> (u: Unit)
        ensures
            u == (Unit {
                x,
                y,
                team,
                hp,
                max_hp: hp,
                movement_range,
                attack_range,
                accuracy,
                min_damage,
                max_damage,
                kind,
                has_attacked: false,
                has_moved: false,
                is_attacked: false,
                ranged_attacker,
                starting_x: x,
                starting_y: y,
            }),
    {
        Unit {
            x,
            y,
            team,
            hp,
            max_hp: hp,
            movement_range,
            attack_range,
            accuracy,
            min_damage,
            max_damage,
            kind,
            has_attacked: false,
            has_moved: false,
            is_attacked: false,
            ranged_attacker,
            starting_x: x,
            starting_y: y,
        }
    }

    /// The chance in percent that this unit's attack on `other` hits.
    pub fn hit_threshold(&self, other: &Unit) -> (t: u32)
        ensures
            t == spec_hit_threshold(*self, *other),
    {
        let scout_debuff: u32 = if other.max_hp == SCOUT_HEALTH_ID { 20 } else { 0 };
        match self.accuracy.checked_sub(scout_debuff) {
            Some(v) => v,
            None => 0,
        }
    }

    /// The damage of an attack on `other` for a hit roll of `chance` (in
    /// 0..100) and a damage roll of `roll`: the roll on a hit, else nothing.
    pub fn damage_for_rolls(&self, other: &Unit, chance: u32, roll: u32) -> (d: u32)
        ensures
            d == (if chance < spec_hit_threshold(*self, *other) { roll } else { 0 }),
    {
        if chance < self.hit_threshold(other) {
            roll
        } else {
            0
        }
    }

    /// Rolls an attack on `other`: it hits with the unit's accuracy (less
    /// against scouts) in percent and then deals between the unit's minimum
    /// and maximum damage; a miss deals none. An accuracy of 0 never hits, one
    /// of 100 or more always does.
    pub fn get_attack_damage(&self, other: &Unit) -> (d: u32)
        requires
            self.min_damage <= self.max_damage,
        ensures
            d == 0 || (self.min_damage <= d <= self.max_damage),
            spec_hit_threshold(*self, *other) == 0 ==> d == 0,
            spec_hit_threshold(*self, *other) >= 100 ==> self.min_damage <= d <= self.max_damage,
    {
        let chance = random_in_range(0, 100) as u32;
        let roll = if chance < self.hit_threshold(other) {
            random_in_range(self.min_damage as u64, self.max_damage as u64 + 1) as u32
        } else {
            0
        };
        self.damage_for_rolls(other, chance, roll)
    }

    pub fn update_pos(&mut self, x: u32, y: u32)
        ensures
            *final(self) == (Unit { x, y, ..*old(self) }),
    {
        self.x = x;
        self.y = y;
    }

    /// Lets the unit move and attack again.
    pub fn next_turn(&mut self)
        ensures
            *final(self) == (Unit { has_attacked: false, has_moved: false, ..*old(self) }),
    {
        self.has_attacked = false;
        self.has_moved = false;
    }

    /// Takes `damage` from `other` (halved for guards hit from range), never
    /// going below zero health, and marks the unit as attacked.
    pub fn receive_damage(&mut self, damage: u32, other: &Unit)
        ensures
            *final(self) == spec_damaged(*old(self), damage, other.ranged_attacker),
    {
        let mut do_damage = damage;
        if self.max_hp == GUARD_HEALTH_ID && other.ranged_attacker && damage > 1 {
            do_damage = do_damage / 2;
        }
        self.hp = match self.hp.checked_sub(do_damage) {
            Some(v) => v,
            None => 0,
        };
        self.is_attacked = true;
    }

    /// Where this unit's side respawns a unit meant for `where_to_spawn`,
    /// walking toward this unit's position (see the free function `respawn_loc`).
    pub fn respawn_loc(&self, map: &TileMap, where_to_spawn: (u32, u32)) -> (r: (u32, u32))
        requires
            map@.contains_key((where_to_spawn.1, where_to_spawn.0)),
            !spec_free_at(map@, where_to_spawn) ==> spec_walk_ends(map@, self.spec_pos(), where_to_spawn),
        ensures
            spec_free_at(map@, where_to_spawn) ==> r == where_to_spawn,
            !spec_free_at(map@, where_to_spawn) ==> spec_walk_result(map@, self.spec_pos(), where_to_spawn, r),
    {
        respawn_loc((self.x, self.y), map, where_to_spawn)
    }

    /// Every tile the unit can reach within its movement range, moving only
    /// onto free traversable tiles, including the tile it stands on.
    pub fn get_tiles_in_movement_range(&self, map: &TileMap) -> (r: Vec<(u32, u32)>)
        ensures
            r@.no_duplicates(),
            r@.len() >= 1,
            r@[0] == self.spec_pos(),
            forall|q: (u32, u32)| r@.contains(q) <==> spec_reachable(map@, SearchMode::Movement, self.spec_pos(), q, self.movement_range as int),
            r@ == spec_area(map@, SearchMode::Movement, self.spec_pos(), self.movement_range as nat),
    {
        search_area(map, (self.x, self.y), self.movement_range, SearchMode::Movement)
    }

    /// When the best move planned for the unit is taken, the nearest free
    /// tile found walking from `desired_move` back toward the unit, or the
    /// unit's own position.
    pub fn get_closest_move(&self, desired_move: (u32, u32), map: &TileMap) -> (r: (u32, u32))
        requires
            spec_walk_ends(map@, self.spec_pos(), desired_move),
        ensures
            spec_walk_result(map@, self.spec_pos(), desired_move, r),
    {
        nearest_free_toward(map, (self.x, self.y), desired_move)
    }

    /// Every tile within the unit's attack range, through tiles that can be
    /// attacked through, except its own.
    pub fn get_tiles_in_attack_range(&self, map: &TileMap) -> (r: Vec<(u32, u32)>)
        ensures
            r@.no_duplicates(),
            forall|q: (u32, u32)| r@.contains(q) <==> (q != self.spec_pos()
                && spec_reachable(map@, SearchMode::Attack, self.spec_pos(), q, self.attack_range as int)),
            r@ == spec_attack_area(map@, self.spec_pos(), self.attack_range as nat),
    {
        tiles_except_start(search_area(map, (self.x, self.y), self.attack_range, SearchMode::Attack))
    }

    /// The tiles within attack range that hold a unit of another team, in
    /// the order of `get_tiles_in_attack_range`.
    pub fn get_tiles_can_attack(&self, map: &TileMap) -> (r: Vec<(u32, u32)>)
        ensures
            r@.no_duplicates(),
            forall|q: (u32, u32)| r@.contains(q) <==> (q != self.spec_pos()
                && spec_reachable(map@, SearchMode::Attack, self.spec_pos(), q, self.attack_range as int)
                && spec_holds_opponent(map@, q, self.team)),
            r@ == spec_attack_targets(map@, self.spec_pos(), self.attack_range as nat, self.team),
    {
        targets_in_area(map, (self.x, self.y), self.attack_range, self.team)
    }

    /// The tiles holding a unit of another team that the unit could attack
    /// if it stood at `from_pos`, in the order the search finds them.
    pub fn get_tiles_can_attack_from_pos(&self, from_pos: (u32, u32), map: &TileMap) -> (r: Vec<(u32, u32)>)
        ensures
            r@.no_duplicates(),
            forall|q: (u32, u32)| r@.contains(q) <==> (q != from_pos
                && spec_reachable(map@, SearchMode::Attack, from_pos, q, self.attack_range as int)
                && spec_holds_opponent(map@, q, self.team)),
            r@ == spec_attack_targets(map@, from_pos, self.attack_range as nat, self.team),
    {
        targets_in_area(map, from_pos, self.attack_range, self.team)
    }
}

/// The area found by a search without its start.
fn tiles_except_start(area: Vec<(u32, u32)>) -> (r: Vec<(u32, u32)>)
    requires
        area@.no_duplicates(),
        area@.len() >= 1,
    ensures
        r@.no_duplicates(),
        forall|q: (u32, u32)| r@.contains(q) <==> (q != area@[0] && area@.contains(q)),
        r@ == area@.subrange(1, area@.len() as int),
{
    let mut r: Vec<(u32, u32)> = Vec::new();
    let mut i: usize = 1;
    while i < area.len()
        invariant
            area@.no_duplicates(),
            1 <= i <= area@.len(),
            r@.no_duplicates(),
            r@ == area@.subrange(1, i as int),
        decreases area@.len() - i,
    {
        r.push(area[i]);
        assert(r@ =~= area@.subrange(1, i + 1));
        i += 1;
    }
    proof {
        assert forall|q: (u32, u32)| r@.contains(q) <==> (q != area@[0] && area@.contains(q)) by {
            if area@.contains(q) && q != area@[0] {
                let j = choose|j: int| 0 <= j < area@.len() && area@[j] == q;
                assert(r@[j - 1] == q);
            }
            if r@.contains(q) {
                let j = choose|j: int| 0 <= j < r@.len() && r@[j] == q;
                assert(area@[j + 1] == q);
            }
        }
    }
    r
}

/// The tiles holding a unit of a team other than `team` within `range` of
/// `start`, through tiles that can be attacked through.
pub(crate) fn targets_in_area(map: &TileMap, start: (u32, u32), range: u32, team: Team) -> (r: Vec<(u32, u32)>)
    ensures
        r@.no_duplicates(),
        forall|q: (u32, u32)| r@.contains(q) <==> (q != start
            && spec_reachable(map@, SearchMode::Attack, start, q, range as int)
            && spec_holds_opponent(map@, q, team)),
        r@ == spec_attack_targets(map@, start, range as nat, team),
{
    let area = search_area(map, start, range, SearchMode::Attack);
    let ghost pred = |q: (u32, u32)| spec_holds_opponent(map@, q, team);
    proof {
        reveal_with_fuel(Seq::<(u32, u32)>::filter, 1);
        assert(area@.subrange(1, 1) =~= Seq::<(u32, u32)>::empty());
    }
    let mut r: Vec<(u32, u32)> = Vec::new();
    let mut i: usize = 1;
    while i < area.len()
        invariant
            area@.no_duplicates(),
            area@.len() >= 1,
            area@[0] == start,
            1 <= i <= area@.len(),
            r@.no_duplicates(),
            forall|q: (u32, u32)| r@.contains(q) <==> (exists|j: int| 1 <= j < i && area@[j] == q
                && spec_holds_opponent(map@, q, team)),
            pred == (|q: (u32, u32)| spec_holds_opponent(map@, q, team)),
            r@ == area@.subrange(1, i as int).filter(pred),
        decreases area@.len() - i,
    {
        let q = area[i];
        let keep = match map.get((q.1, q.0)) {
            Some(t) => match t.contained_unit_team {
                Some(tm) => tm != team,
                None => false,
            },
            None => false,
        };
        let ghost old_r = r@;
        proof {
            reveal_with_fuel(Seq::<(u32, u32)>::filter, 1);
            assert(area@.subrange(1, i + 1).drop_last() =~= area@.subrange(1, i as int));
            assert(area@.subrange(1, i + 1).last() == q);
        }
        if keep {
            proof {
                if old_r.contains(q) {
                    let j = choose|j: int| 1 <= j < i && area@[j] == q && spec_holds_opponent(map@, q, team);
                    assert(area@[j] == area@[i as int]);
                }
            }
            r.push(q);
        }
        proof {
            assert forall|w: (u32, u32)| r@.contains(w) <==> (exists|j: int| 1 <= j < i + 1 && area@[j] == w
                && spec_holds_opponent(map@, w, team)) by {
                if r@.contains(w) {
                    let j = choose|j: int| 0 <= j < r@.len() && r@[j] == w;
                    if j < old_r.len() {
                        assert(old_r[j] == w);
                        assert(old_r.contains(w));
                    } else {
                        assert(w == q);
                        assert(area@[i as int] == w);
                    }
                }
                if exists|j: int| 1 <= j < i + 1 && area@[j] == w && spec_holds_opponent(map@, w, team) {
                    let j = choose|j: int| 1 <= j < i + 1 && area@[j] == w && spec_holds_opponent(map@, w, team);
                    if j < i {
                        assert(old_r.contains(w));
                        let k = choose|k: int| 0 <= k < old_r.len() && old_r[k] == w;
                        assert(r@[k] == w);
                    } else {
                        assert(r@[r@.len() - 1] == w);
                    }
                }
            }
        }
        i += 1;
    }
    proof {
        assert forall|q: (u32, u32)| r@.contains(q) <==> (q != start
            && spec_reachable(map@, SearchMode::Attack, start, q, range as int)
            && spec_holds_opponent(map@, q, team)) by {
            if q != start && area@.contains(q) && spec_holds_opponent(map@, q, team) {
                let j = choose|j: int| 0 <= j < area@.len() && area@[j] == q;
                assert(j != 0);
            }
            if r@.contains(q) {
                let j = choose|j: int| 1 <= j < area@.len() && area@[j] == q && spec_holds_opponent(map@, q, team);
                assert(area@[0] != area@[j]);
            }
        }
    }
    assert(area@.subrange(1, i as int) =~= area@.subrange(1, area@.len() as int));
    r
}

} // verus!
