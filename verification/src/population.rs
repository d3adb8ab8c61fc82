//! What the enemy's planner knows of a unit and of a planned position: where
//! it can go, whom it could attack from there, and how it stands toward the
//! objectives. How the planner weighs these is its own affair.

use vstd::prelude::*;
use crate::distance::{get_actual_distance_from_goal, spec_walking_distance};
use crate::distance_map::DistanceMap;
use crate::pathing::{SearchMode, spec_reachable, contains_pos};
use crate::team::Team;
use crate::tile_map::TileMap;
use crate::unit::{targets_in_area, spec_attack_targets, spec_holds_opponent};

verus! {

/// Within this many steps of its own castle a unit counts as defending it.
pub const MIN_DISTANCE: u32 = 5;

/// A unit as the planner sees it: where it can move, and how far it attacks.
pub struct SuccinctUnit {
    pub possible_moves: Vec<(u32, u32)>,
    pub attack_range: u32,
}

impl SuccinctUnit {
    pub fn new(possible_moves: Vec<(u32, u32)>, attack_range: u32) -> (u: SuccinctUnit)
        ensures
            u.possible_moves@ == possible_moves@,
            u.attack_range == attack_range,
    {
        SuccinctUnit { possible_moves, attack_range }
    }
}

/// The tiles holding a unit of the player or the barbarians that an enemy
/// unit at `coordinates` attacking at `range` could reach, in the order the
/// search finds them.
pub fn generalized_tiles_can_attack(map: &TileMap, coordinates: (u32, u32), range: u32) -> (r: Vec<(u32, u32)>)
    ensures
        r@.no_duplicates(),
        forall|q: (u32, u32)| r@.contains(q) <==> (q != coordinates
            && spec_reachable(map@, SearchMode::Attack, coordinates, q, range as int)
            && spec_holds_opponent(map@, q, Team::Enemy)),
        r@ == spec_attack_targets(map@, coordinates, range as nat, Team::Enemy),
{
    targets_in_area(map, coordinates, range, Team::Enemy)
}

/// Whether some planned unit placement is `coordinates`.
pub fn placement_taken(placements: &Vec<(u32, u32)>, coordinates: &(u32, u32)) -> (b: bool)
    ensures
        b == placements@.contains(*coordinates),
{
    contains_pos(placements, *coordinates)
}

/// Whether one of the first `ending_point` planned placements is `coordinates`.
pub fn placement_taken_before(placements: &Vec<(u32, u32)>, coordinates: &(u32, u32), ending_point: usize) -> (b: bool)
    requires
        ending_point <= placements@.len(),
    ensures
        b == placements@.take(ending_point as int).contains(*coordinates),
{
    let mut index: usize = 0;
    while index < ending_point
        invariant
            index <= ending_point <= placements@.len(),
            forall|k: int| 0 <= k < index ==> placements@[k] != *coordinates,
        decreases ending_point - index,
    {
        if placements[index].0 == coordinates.0 && placements[index].1 == coordinates.1 {
            assert(placements@.take(ending_point as int)[index as int] == *coordinates);
            return true;
        }
        index += 1;
    }
    proof {
        assert forall|k: int| 0 <= k < placements@.take(ending_point as int).len() implies placements@.take(ending_point as int)[k] != *coordinates by {
            assert(placements@.take(ending_point as int)[k] == placements@[k]);
        }
    }
    false
}

/// How many steps apart `a` and `b` are along the axes.
pub open spec fn spec_manhattan(a: (u32, u32), b: (u32, u32)) -> int {
    let dx = a.0 - b.0;
    let dy = a.1 - b.1;
    (if dx >= 0 { dx } else { -dx }) + (if dy >= 0 { dy } else { -dy })
}

/// The index of the first of the first `n` camps nearest to `pos` (counting
/// only camps nearer than 1000 steps), and its distance (1000 if none is).
pub open spec fn spec_nearest_camp(camps: Seq<(u32, u32)>, pos: (u32, u32), n: int) -> (int, int)
    decreases n,
{
    if n <= 0 {
        (0, 1000)
    } else {
        let prev = spec_nearest_camp(camps, pos, n - 1);
        let d = spec_manhattan(pos, camps[n - 1]);
        if d < prev.1 { (n - 1, d) } else { prev }
    }
}

/// Whether `pos` is one of the three tiles of the 2x2 camp at `c` other than its corner.
pub open spec fn spec_in_camp_rest(pos: (u32, u32), c: (u32, u32)) -> bool {
    ||| pos == ((c.0 + 1) as u32, c.1)
    ||| pos == (c.0, (c.1 + 1) as u32)
    ||| pos == ((c.0 + 1) as u32, (c.1 + 1) as u32)
}

/// How a planned position stands toward the objectives.
pub struct UnitValueFacts {
    /// Steps to the enemy's own castle, and whether that is close enough to defend it.
    pub distance_from_own_castle: u32,
    pub defending: bool,
    /// Steps to the player's castle, and whether the unit stands on it.
    pub distance_from_enemy_castle: u32,
    pub sieging: bool,
    /// Steps to the nearest camp (0 on it, -1 with no camps left), and
    /// whether the unit stands on it.
    pub distance_from_nearest_camp: i32,
    pub capturing_camp: bool,
    /// The tiles of units it could attack from there, and whether there are any.
    pub tiles_to_attack: Vec<(u32, u32)>,
    pub able_to_attack: bool,
}

/// Whether the distance table covers what `unit_value_facts` looks up for
/// `unit_pos`, and the coordinates are small enough to subtract.
pub open spec fn spec_value_lookups_ok(unit_pos: (u32, u32), camps: Seq<(u32, u32)>, distance_map: DistanceMap) -> bool {
    &&& distance_map.to_enemy_castle@.contains_key(unit_pos)
    &&& distance_map.to_player_castle@.contains_key(unit_pos)
    &&& unit_pos.0 <= 0x3fff_ffff && unit_pos.1 <= 0x3fff_ffff
    &&& forall|k: int| 0 <= k < camps.len() ==> (#[trigger] camps[k]).0 <= 0x3fff_ffff && camps[k].1 <= 0x3fff_ffff
    &&& camps.len() > 0 ==> {
        let c = camps[spec_nearest_camp(camps, unit_pos, camps.len() as int).0];
        &&& distance_map.to_barbarian_camps@.contains_key(c)
        &&& distance_map.to_barbarian_camps@[c].contains_key(unit_pos)
    }
}

proof fn lemma_nearest_in_range(camps: Seq<(u32, u32)>, pos: (u32, u32), n: int)
    requires
        0 <= n <= camps.len(),
    ensures
        0 <= spec_nearest_camp(camps, pos, n).0,
        n > 0 ==> spec_nearest_camp(camps, pos, n).0 < n,
        spec_nearest_camp(camps, pos, n).1 <= 1000,
    decreases n,
{
    if n > 0 {
        lemma_nearest_in_range(camps, pos, n - 1);
    }
}

/// The index of the first camp of `camp_coords` nearest to `unit_pos` (see `spec_nearest_camp`).
fn nearest_camp(unit_pos: (u32, u32), camp_coords: &Vec<(u32, u32)>) -> (r: usize)
    requires
        camp_coords@.len() > 0,
        unit_pos.0 <= 0x3fff_ffff && unit_pos.1 <= 0x3fff_ffff,
        forall|k: int| 0 <= k < camp_coords@.len() ==> (#[trigger] camp_coords@[k]).0 <= 0x3fff_ffff && camp_coords@[k].1 <= 0x3fff_ffff,
    ensures
        r as int == spec_nearest_camp(camp_coords@, unit_pos, camp_coords@.len() as int).0,
        r < camp_coords@.len(),
{
    let mut min_distance_index: usize = 0;
    let mut min_distance: i64 = 1000;
    let mut index: usize = 0;
    while index < camp_coords.len()
        invariant
            index <= camp_coords@.len(),
            forall|k: int| 0 <= k < camp_coords@.len() ==> (#[trigger] camp_coords@[k]).0 <= 0x3fff_ffff && camp_coords@[k].1 <= 0x3fff_ffff,
            unit_pos.0 <= 0x3fff_ffff && unit_pos.1 <= 0x3fff_ffff,
            (min_distance_index as int, min_distance as int) == spec_nearest_camp(camp_coords@, unit_pos, index as int),
        decreases camp_coords@.len() - index,
    {
        let camp = camp_coords[index];
        let dx: i64 = unit_pos.0 as i64 - camp.0 as i64;
        let dy: i64 = unit_pos.1 as i64 - camp.1 as i64;
        let current_distance: i64 = (if dx >= 0 { dx } else { -dx }) + (if dy >= 0 { dy } else { -dy });
        if current_distance < min_distance {
            min_distance = current_distance;
            min_distance_index = index;
        }
        index += 1;
    }
    proof {
        lemma_nearest_in_range(camp_coords@, unit_pos, camp_coords@.len() as int);
    }
    min_distance_index
}

/// Whether the distance table covers what `unit_value_facts` looks up for
/// `unit_pos` (see `spec_value_lookups_ok`).
pub fn value_lookups_ok(unit_pos: (u32, u32), camp_coords: &Vec<(u32, u32)>, distance_map: &DistanceMap) -> (b: bool)
    ensures
        b == spec_value_lookups_ok(unit_pos, camp_coords@, *distance_map),
{
    if !distance_map.to_enemy_castle.contains_key(unit_pos) || !distance_map.to_player_castle.contains_key(unit_pos) {
        return false;
    }
    if unit_pos.0 > 0x3fff_ffff || unit_pos.1 > 0x3fff_ffff {
        return false;
    }
    let mut k: usize = 0;
    while k < camp_coords.len()
        invariant
            k <= camp_coords@.len(),
            forall|j: int| 0 <= j < k ==> (#[trigger] camp_coords@[j]).0 <= 0x3fff_ffff && camp_coords@[j].1 <= 0x3fff_ffff,
        decreases camp_coords@.len() - k,
    {
        if camp_coords[k].0 > 0x3fff_ffff || camp_coords[k].1 > 0x3fff_ffff {
            return false;
        }
        k += 1;
    }
    if camp_coords.len() == 0 {
        return true;
    }
    let c = camp_coords[nearest_camp(unit_pos, camp_coords)];
    distance_map.to_barbarian_camps.get(c, unit_pos).is_some()
}

/// Whether `f` is how the planned position `unit_pos` of a unit attacking at
/// `unit_attack_range` stands toward the objectives (see `unit_value_facts`).
pub open spec fn spec_value_facts(
    f: UnitValueFacts,
    unit_attack_range: u32,
    unit_pos: (u32, u32),
    map: Map<(u32, u32), crate::tile::Tile>,
    camps: Seq<(u32, u32)>,
    distance_map: DistanceMap,
) -> bool {
    &&& f.distance_from_own_castle == distance_map.to_enemy_castle@[unit_pos]
    &&& f.defending == (f.distance_from_own_castle <= MIN_DISTANCE)
    &&& f.distance_from_enemy_castle == distance_map.to_player_castle@[unit_pos]
    &&& f.sieging == (f.distance_from_enemy_castle == 0)
    &&& camps.len() == 0 ==> f.distance_from_nearest_camp == -1
    &&& camps.len() > 0 ==> {
        let c = camps[spec_nearest_camp(camps, unit_pos, camps.len() as int).0];
        f.distance_from_nearest_camp == (if spec_in_camp_rest(unit_pos, c) { 0 } else {
            distance_map.to_barbarian_camps@[c][unit_pos] as i32
        })
    }
    &&& f.capturing_camp == (f.distance_from_nearest_camp == 0)
    &&& f.tiles_to_attack@.no_duplicates()
    &&& forall|q: (u32, u32)| f.tiles_to_attack@.contains(q) <==> (q != unit_pos
        && spec_reachable(map, SearchMode::Attack, unit_pos, q, unit_attack_range as int)
        && spec_holds_opponent(map, q, Team::Enemy))
    &&& f.able_to_attack == (f.tiles_to_attack@.len() > 0)
}

/// A position on the nearest camp captures it: when the camps are not all
/// gone, a unit planned on one of the four tiles of the nearest 2x2 camp
/// (its corner, the tile to the right, the tile below, or the one
/// diagonally below right; the corner when the table gives it 0 steps to the
/// camp) is 0 steps from the nearest camp and is capturing it. Anywhere else
/// the camp distance is what the table gives.
pub proof fn lemma_on_camp_captures(
    f: UnitValueFacts,
    unit_attack_range: u32,
    unit_pos: (u32, u32),
    map: Map<(u32, u32), crate::tile::Tile>,
    camps: Seq<(u32, u32)>,
    distance_map: DistanceMap,
)
    requires
        spec_value_facts(f, unit_attack_range, unit_pos, map, camps, distance_map),
        camps.len() > 0,
    ensures
        ({
            let c = camps[spec_nearest_camp(camps, unit_pos, camps.len() as int).0];
            let right = ((c.0 + 1) as u32, c.1);
            let below = (c.0, (c.1 + 1) as u32);
            let diagonal = ((c.0 + 1) as u32, (c.1 + 1) as u32);
            &&& (unit_pos == right || unit_pos == below || unit_pos == diagonal
                || (unit_pos == c && distance_map.to_barbarian_camps@[c][unit_pos] == 0))
                ==> f.distance_from_nearest_camp == 0 && f.capturing_camp
            &&& !(unit_pos == right || unit_pos == below || unit_pos == diagonal)
                ==> f.distance_from_nearest_camp == distance_map.to_barbarian_camps@[c][unit_pos] as i32
        }),
{
}

/// How the planned position `unit_pos` of a unit attacking at
/// `unit_attack_range` stands toward the objectives: its distances to both
/// castles and to the nearest of the camps `camp_coords`, and the units it
/// could attack from there.
pub fn unit_value_facts(
    unit_attack_range: u32,
    unit_pos: (u32, u32),
    map: &TileMap,
    camp_coords: &Vec<(u32, u32)>,
    distance_map: &DistanceMap,
) -> (f: UnitValueFacts)
    requires
        spec_value_lookups_ok(unit_pos, camp_coords@, *distance_map),
    ensures
        f.distance_from_own_castle == distance_map.to_enemy_castle@[unit_pos],
        f.defending == (f.distance_from_own_castle <= MIN_DISTANCE),
        f.distance_from_enemy_castle == distance_map.to_player_castle@[unit_pos],
        f.sieging == (f.distance_from_enemy_castle == 0),
        camp_coords@.len() == 0 ==> f.distance_from_nearest_camp == -1,
        camp_coords@.len() > 0 ==> {
            let c = camp_coords@[spec_nearest_camp(camp_coords@, unit_pos, camp_coords@.len() as int).0];
            f.distance_from_nearest_camp == (if spec_in_camp_rest(unit_pos, c) { 0 } else {
                distance_map.to_barbarian_camps@[c][unit_pos] as i32
            })
        },
        f.capturing_camp == (f.distance_from_nearest_camp == 0),
        f.tiles_to_attack@.no_duplicates(),
        forall|q: (u32, u32)| f.tiles_to_attack@.contains(q) <==> (q != unit_pos
            && spec_reachable(map@, SearchMode::Attack, unit_pos, q, unit_attack_range as int)
            && spec_holds_opponent(map@, q, Team::Enemy)),
        f.able_to_attack == (f.tiles_to_attack@.len() > 0),
        spec_value_facts(f, unit_attack_range, unit_pos, map@, camp_coords@, *distance_map),
{
    let distance_from_own_castle = match distance_map.to_enemy_castle.get(unit_pos) {
        Some(d) => d,
        None => 0,
    };
    let defending = distance_from_own_castle <= MIN_DISTANCE;
    let distance_from_enemy_castle = match distance_map.to_player_castle.get(unit_pos) {
        Some(d) => d,
        None => 0,
    };
    let sieging = distance_from_enemy_castle == 0;
    let distance_from_nearest_camp: i32 = if camp_coords.len() > 0 {
        let min_distance_index = nearest_camp(unit_pos, camp_coords);
        let min_camp = camp_coords[min_distance_index];
        let dist = match distance_map.to_barbarian_camps.get(min_camp, unit_pos) {
            Some(d) => d,
            None => 0,
        };
        if (unit_pos.0 == min_camp.0 + 1 && unit_pos.1 == min_camp.1) || (unit_pos.0 == min_camp.0 && unit_pos.1 == min_camp.1 + 1)
            || (unit_pos.0 == min_camp.0 + 1 && unit_pos.1 == min_camp.1 + 1) {
            0
        } else {
            dist as i32
        }
    } else {
        -1
    };
    let capturing_camp = distance_from_nearest_camp == 0;
    let tiles_to_attack = generalized_tiles_can_attack(map, unit_pos, unit_attack_range);
    let able_to_attack = tiles_to_attack.len() > 0;
    UnitValueFacts {
        distance_from_own_castle,
        defending,
        distance_from_enemy_castle,
        sieging,
        distance_from_nearest_camp,
        capturing_camp,
        tiles_to_attack,
        able_to_attack,
    }
}

/// The side of the map the distance tables cover.
pub const TABLE_SIDE: u32 = 64;

/// The walking distances (see `spec_walking_distance`) from every tile
/// (x, y) of the map's 64 by 64 grid to `goal`, row by row, as (x, y, distance).
pub fn goal_distance_rows(map: &TileMap, goal: (u32, u32)) -> (r: Vec<(u32, u32, u32)>)
    requires
        map@.dom().len() < 0x3fff_ffff,
    ensures
        r@.len() == TABLE_SIDE * TABLE_SIDE,
        forall|k: int| 0 <= k < r@.len() ==> {
            let e = #[trigger] r@[k];
            &&& e.0 == k % TABLE_SIDE as int
            &&& e.1 == k / TABLE_SIDE as int
            &&& spec_walking_distance(map@, (e.0, e.1), goal, e.2 as int)
        },
{
    let mut r: Vec<(u32, u32, u32)> = Vec::new();
    let mut i: u32 = 0;
    while i < TABLE_SIDE
        invariant
            i <= TABLE_SIDE,
            map@.dom().len() < 0x3fff_ffff,
            r@.len() == i * TABLE_SIDE,
            forall|k: int| 0 <= k < r@.len() ==> {
                let e = #[trigger] r@[k];
                &&& e.0 == k % TABLE_SIDE as int
                &&& e.1 == k / TABLE_SIDE as int
                &&& spec_walking_distance(map@, (e.0, e.1), goal, e.2 as int)
            },
        decreases TABLE_SIDE - i,
    {
        let mut j: u32 = 0;
        while j < TABLE_SIDE
            invariant
                i < TABLE_SIDE,
                j <= TABLE_SIDE,
                map@.dom().len() < 0x3fff_ffff,
                r@.len() == i * TABLE_SIDE + j,
                forall|k: int| 0 <= k < r@.len() ==> {
                    let e = #[trigger] r@[k];
                    &&& e.0 == k % TABLE_SIDE as int
                    &&& e.1 == k / TABLE_SIDE as int
                    &&& spec_walking_distance(map@, (e.0, e.1), goal, e.2 as int)
                },
            decreases TABLE_SIDE - j,
        {
            let dist = get_actual_distance_from_goal((j, i), goal, map);
            let ghost k = r@.len() as int;
            r.push((j, i, dist));
            proof {
                assert(k == i * 64 + j);
                assert(k % 64 == j && k / 64 == i) by (nonlinear_arith)
                    requires
                        k == i * 64 + j,
                        0 <= j < 64,
                        0 <= i;
                assert forall|m: int| 0 <= m < r@.len() implies {
                    let e = #[trigger] r@[m];
                    &&& e.0 == m % TABLE_SIDE as int
                    &&& e.1 == m / TABLE_SIDE as int
                    &&& spec_walking_distance(map@, (e.0, e.1), goal, e.2 as int)
                } by {
                    if m == k {
                        assert(r@[m] == (j, i, dist));
                    }
                }
            }
            j += 1;
        }
        i += 1;
    }
    r
}

/// The plan that takes the entries of `a` from `lower` up to `upper` and
/// those of `b` elsewhere.
pub open spec fn spec_spliced<T>(a: Seq<T>, b: Seq<T>, lower: int, upper: int) -> Seq<T> {
    b.subrange(0, lower) + a.subrange(lower, upper) + b.subrange(upper, b.len() as int)
}

/// The two children of a crossover of the plans `a` and `b` between the
/// drawn bounds `lower` and `upper`: the first takes `a`'s entries between
/// them and `b`'s elsewhere, the second the other way round.
pub fn crossover_at<T: Copy>(a: &Vec<T>, b: &Vec<T>, lower: usize, upper: usize) -> (r: (Vec<T>, Vec<T>))
    requires
        a@.len() == b@.len(),
        lower <= upper <= a@.len(),
    ensures
        r.0@ == spec_spliced(a@, b@, lower as int, upper as int),
        r.1@ == spec_spliced(b@, a@, lower as int, upper as int),
{
    let n = a.len();
    let mut one: Vec<T> = Vec::new();
    let mut two: Vec<T> = Vec::new();
    let mut i: usize = 0;
    while i < n
        invariant
            n == a@.len(),
            a@.len() == b@.len(),
            lower <= upper <= n,
            i <= n,
            one@.len() == i,
            two@.len() == i,
            forall|j: int| 0 <= j < i ==> one@[j] == (if lower <= j < upper { a@[j] } else { b@[j] }),
            forall|j: int| 0 <= j < i ==> two@[j] == (if lower <= j < upper { b@[j] } else { a@[j] }),
        decreases n - i,
    {
        if lower <= i && i < upper {
            one.push(a[i]);
            two.push(b[i]);
        } else {
            one.push(b[i]);
            two.push(a[i]);
        }
        i += 1;
    }
    assert(one@ =~= spec_spliced(a@, b@, lower as int, upper as int));
    assert(two@ =~= spec_spliced(b@, a@, lower as int, upper as int));
    (one, two)
}

/// The new place a mutation gives a unit at `current` whose possible places
/// are `moves`, with the other planned places `placements`, from the drawn
/// indices `draws`: the place of the first of the first ten draws that
/// neither is `current` nor is planned already; if none, the place next to
/// that of the eleventh draw (the one before it, or the second place when it
/// is the first).
pub open spec fn spec_mutation_move(
    moves: Seq<(u32, u32)>,
    current: (u32, u32),
    placements: Seq<(u32, u32)>,
    draws: Seq<usize>,
    k: nat,
) -> (u32, u32)
    decreases 10 - k,
{
    if k >= 10 {
        let c = draws[10] as int;
        if c == 0 { moves[1] } else { moves[c - 1] }
    } else {
        let m = moves[draws[k as int] as int];
        if m != current && !placements.contains(m) { m } else { spec_mutation_move(moves, current, placements, draws, k + 1) }
    }
}

/// The new place a mutation gives a unit (see `spec_mutation_move`).
pub fn mutation_move(moves: &Vec<(u32, u32)>, current: (u32, u32), placements: &Vec<(u32, u32)>, draws: &Vec<usize>) -> (r: (u32, u32))
    requires
        moves@.len() >= 2,
        draws@.len() == 11,
        forall|j: int| 0 <= j < 11 ==> #[trigger] draws@[j] < moves@.len(),
    ensures
        r == spec_mutation_move(moves@, current, placements@, draws@, 0),
{
    let mut k: usize = 0;
    while k < 10
        invariant
            k <= 10,
            moves@.len() >= 2,
            draws@.len() == 11,
            forall|j: int| 0 <= j < 11 ==> #[trigger] draws@[j] < moves@.len(),
            spec_mutation_move(moves@, current, placements@, draws@, 0)
                == spec_mutation_move(moves@, current, placements@, draws@, k as nat),
        decreases 10 - k,
    {
        let m = moves[draws[k]];
        if !(m.0 == current.0 && m.1 == current.1) && !placement_taken(placements, &m) {
            return m;
        }
        k += 1;
    }
    let c = draws[10];
    if c == 0 { moves[1] } else { moves[c - 1] }
}

} // verus!
