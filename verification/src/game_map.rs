//! The state of a game: the tiles, the units of the three teams, the
//! objectives, whose turn it is, and the list of events that change it.

use vstd::prelude::*;
use crate::banner::{Banner, BANNER_ALPHA, BANNER_TURN_P1, BANNER_WIN_P1, BANNER_WIN_P2, spec_banner_color, spec_turn_banner_key};
use crate::player_state::PlayerAction;
use crate::codec::{Event, EVENT_END_GAME, EVENT_MOVE, EVENT_ATTACK, EVENT_END_TURN, EVENT_SPAWN_UNIT, EVENT_UNIT_MELEE, EVENT_UNIT_ARCHER};
use crate::player_state::spec_next_team;
use crate::team::spec_team_from_id;
use crate::unit::spec_damaged;
use crate::objective_manager::{ObjectiveManager, spec_objectives_checked, spec_has_won};
use crate::player_state::PlayerState;
use crate::team::{Team, spec_as_client, spec_team_id};
use crate::tile::Tile;
use crate::tile_map::TileMap;
use crate::unit::{Unit, UnitKind, GUARD_HEALTH_ID, SCOUT_HEALTH_ID};
use crate::unit_map::UnitMap;
use crate::unit_interface::UnitInterface;
use crate::map_layout::{lay_out, letter_grid, spec_letter_grid, spec_grid_view, spec_grid_tiles, spec_cells, spec_last_found, spec_camp_cells};

verus! {

/// The unit a letter of a unit list stands for, on `team`, at `pos`:
/// 'l' melee, 'r' archer, 'g' guard, 's' scout, anything else a mage.
/// Barbarians have about half the health and deal less damage.
pub open spec fn spec_unit_for(team: Team, c: char, pos: (u32, u32)) -> Unit {
    let barb = team == Team::Barbarians;
    let (hp, mv, range, acc, min, max, kind, ranged): (u32, u32, u32, u32, u32, u32, UnitKind, bool) =
        if c == 'l' {
            if barb { (10, 7, 1, 95, 1, 3, UnitKind::Melee, false) } else { (20, 7, 1, 95, 1, 5, UnitKind::Melee, false) }
        } else if c == 'r' {
            if barb { (8, 5, 4, 85, 2, 4, UnitKind::Archer, true) } else { (15, 5, 4, 85, 3, 7, UnitKind::Archer, true) }
        } else if c == 'g' {
            if barb { (16, 4, 1, 90, 1, 5, UnitKind::Guard, false) } else { (GUARD_HEALTH_ID, 4, 1, 90, 1, 5, UnitKind::Guard, false) }
        } else if c == 's' {
            if barb { (6, 9, 2, 100, 4, 4, UnitKind::Scout, false) } else { (SCOUT_HEALTH_ID, 9, 2, 100, 4, 4, UnitKind::Scout, false) }
        } else {
            if barb { (5, 6, 3, 75, 3, 6, UnitKind::Mage, true) } else { (10, 6, 3, 75, 5, 9, UnitKind::Mage, true) }
        };
    Unit {
        x: pos.0,
        y: pos.1,
        team,
        hp,
        max_hp: hp,
        movement_range: mv,
        attack_range: range,
        accuracy: acc,
        min_damage: min,
        max_damage: max,
        kind,
        has_attacked: false,
        has_moved: false,
        is_attacked: false,
        ranged_attacker: ranged,
        starting_x: pos.0,
        starting_y: pos.1,
    }
}

/// The unit a letter of a unit list stands for, on `team`, at `pos`.
pub fn unit_for(team: Team, c: char, pos: (u32, u32)) -> (u: Unit)
    ensures
        u == spec_unit_for(team, c, pos),
{
    let barb = team == Team::Barbarians;
    let (x, y) = pos;
    if c == 'l' {
        if barb {
            Unit::new(x, y, team, 10, 7, 1, 95, 1, 3, UnitKind::Melee, false)
        } else {
            Unit::new(x, y, team, 20, 7, 1, 95, 1, 5, UnitKind::Melee, false)
        }
    } else if c == 'r' {
        if barb {
            Unit::new(x, y, team, 8, 5, 4, 85, 2, 4, UnitKind::Archer, true)
        } else {
            Unit::new(x, y, team, 15, 5, 4, 85, 3, 7, UnitKind::Archer, true)
        }
    } else if c == 'g' {
        if barb {
            Unit::new(x, y, team, 16, 4, 1, 90, 1, 5, UnitKind::Guard, false)
        } else {
            Unit::new(x, y, team, GUARD_HEALTH_ID, 4, 1, 90, 1, 5, UnitKind::Guard, false)
        }
    } else if c == 's' {
        if barb {
            Unit::new(x, y, team, 6, 9, 2, 100, 4, 4, UnitKind::Scout, false)
        } else {
            Unit::new(x, y, team, SCOUT_HEALTH_ID, 9, 2, 100, 4, 4, UnitKind::Scout, false)
        }
    } else {
        if barb {
            Unit::new(x, y, team, 5, 6, 3, 75, 3, 6, UnitKind::Mage, true)
        } else {
            Unit::new(x, y, team, 10, 6, 3, 75, 5, 9, UnitKind::Mage, true)
        }
    }
}

/// The units of `list` placed one after another on `units`, each on its
/// position (a later one replaces an earlier one on the same position).
pub open spec fn spec_placed_units(
    units: Map<(u32, u32), Unit>,
    team: Team,
    list: Seq<(char, (u32, u32))>,
) -> Map<(u32, u32), Unit>
    decreases list.len(),
{
    if list.len() == 0 {
        units
    } else {
        spec_placed_units(units, team, list.drop_last()).insert(
            list.last().1,
            spec_unit_for(team, list.last().0, list.last().1),
        )
    }
}

/// The tile under `key` of `tiles` marked as holding a unit of `team`.
pub open spec fn spec_marked(tiles: Map<(u32, u32), Tile>, key: (u32, u32), team: Option<Team>) -> Map<(u32, u32), Tile> {
    tiles.insert(key, Tile { contained_unit_team: team, ..tiles[key] })
}

/// The tiles of `tiles` under the units of `list` marked as holding a unit of
/// `team`. A unit at (x, y) stands on the tile under key (y, x).
pub open spec fn spec_marked_tiles(
    tiles: Map<(u32, u32), Tile>,
    team: Team,
    list: Seq<(char, (u32, u32))>,
) -> Map<(u32, u32), Tile>
    decreases list.len(),
{
    if list.len() == 0 {
        tiles
    } else {
        spec_marked(spec_marked_tiles(tiles, team, list.drop_last()), (list.last().1.1, list.last().1.0), Some(team))
    }
}

/// Places the units of `units` on `player_units` for `player_team`, each
/// built from its letter, and marks the tiles they stand on.
pub fn prepare_player_units(
    player_units: &mut UnitMap,
    player_team: Team,
    units: &Vec<(char, (u32, u32))>,
    map: &mut TileMap,
)
    requires
        forall|i: int| 0 <= i < units@.len() ==> old(map)@.contains_key(((#[trigger] units@[i]).1.1, units@[i].1.0)),
    ensures
        final(player_units)@ == spec_placed_units(old(player_units)@, player_team, units@),
        final(map)@ == spec_marked_tiles(old(map)@, player_team, units@),
        final(map)@.dom() == old(map)@.dom(),
{
    let mut i: usize = 0;
    while i < units.len()
        invariant
            i <= units@.len(),
            forall|j: int| 0 <= j < units@.len() ==> old(map)@.contains_key(((#[trigger] units@[j]).1.1, units@[j].1.0)),
            player_units@ == spec_placed_units(old(player_units)@, player_team, units@.take(i as int)),
            map@ == spec_marked_tiles(old(map)@, player_team, units@.take(i as int)),
            map@.dom() == old(map)@.dom(),
        decreases units@.len() - i,
    {
        let (c, pos) = units[i];
        assert(old(map)@.contains_key((units@[i as int].1.1, units@[i as int].1.0)));
        map.update_team((pos.1, pos.0), Some(player_team));
        player_units.insert(unit_for(player_team, c, pos));
        proof {
            let t = units@.take(i + 1);
            assert(t.drop_last() =~= units@.take(i as int));
            assert(t.last() == (c, pos));
            assert(map@.dom() =~= old(map)@.dom());
        }
        i += 1;
    }
    assert(units@.take(i as int) =~= units@);
}

/// The starting units of the side whose castle is '1': letter and (x, y).
pub open spec fn spec_p1_units() -> Seq<(char, (u32, u32))> {
    seq![
        ('l', (8u32, 46u32)), ('l', (10u32, 45u32)), ('l', (12u32, 46u32)), ('l', (17u32, 51u32)), ('l', (17u32, 55u32)), ('l', (18u32, 53u32)),
        ('r', (9u32, 49u32)), ('r', (10u32, 47u32)), ('r', (14u32, 54u32)), ('r', (16u32, 53u32)),
        ('m', (10u32, 50u32)), ('m', (13u32, 53u32)), ('m', (12u32, 48u32)),
        ('g', (10u32, 53u32)),
        ('s', (10u32, 52u32)), ('s', (11u32, 53u32)),
    ]
}

/// The starting units of the side whose castle is '2'.
pub open spec fn spec_p2_units() -> Seq<(char, (u32, u32))> {
    seq![
        ('l', (46u32, 8u32)), ('l', (45u32, 10u32)), ('l', (46u32, 12u32)), ('l', (51u32, 17u32)), ('l', (55u32, 17u32)), ('l', (53u32, 18u32)),
        ('r', (49u32, 9u32)), ('r', (47u32, 10u32)), ('r', (54u32, 14u32)), ('r', (53u32, 16u32)),
        ('m', (50u32, 10u32)), ('m', (53u32, 13u32)), ('m', (48u32, 12u32)),
        ('g', (53u32, 10u32)),
        ('s', (52u32, 10u32)), ('s', (53u32, 11u32)),
    ]
}

/// The barbarians at the start of a game.
pub open spec fn spec_barbarian_units() -> Seq<(char, (u32, u32))> {
    seq![
        ('l', (4u32, 6u32)), ('l', (6u32, 8u32)), ('l', (7u32, 7u32)), ('r', (8u32, 5u32)),
        ('l', (59u32, 56u32)), ('l', (56u32, 56u32)), ('l', (54u32, 57u32)), ('r', (56u32, 59u32)),
        ('l', (28u32, 15u32)), ('l', (29u32, 10u32)), ('l', (32u32, 11u32)), ('l', (35u32, 15u32)), ('r', (30u32, 8u32)), ('r', (36u32, 10u32)),
        ('l', (28u32, 52u32)), ('l', (28u32, 48u32)), ('l', (33u32, 51u32)), ('l', (35u32, 48u32)), ('r', (32u32, 53u32)), ('r', (33u32, 56u32)),
        ('l', (17u32, 38u32)), ('l', (16u32, 37u32)), ('r', (23u32, 36u32)), ('r', (18u32, 30u32)),
        ('l', (46u32, 25u32)), ('l', (47u32, 26u32)), ('r', (40u32, 27u32)), ('r', (45u32, 33u32)),
    ]
}

pub fn p1_units() -> (v: Vec<(char, (u32, u32))>)
    ensures
        v@ == spec_p1_units(),
{
    let v = vec![
        ('l', (8u32, 46u32)), ('l', (10u32, 45u32)), ('l', (12u32, 46u32)), ('l', (17u32, 51u32)), ('l', (17u32, 55u32)), ('l', (18u32, 53u32)),
        ('r', (9u32, 49u32)), ('r', (10u32, 47u32)), ('r', (14u32, 54u32)), ('r', (16u32, 53u32)),
        ('m', (10u32, 50u32)), ('m', (13u32, 53u32)), ('m', (12u32, 48u32)),
        ('g', (10u32, 53u32)),
        ('s', (10u32, 52u32)), ('s', (11u32, 53u32)),
    ];
    assert(v@ =~= spec_p1_units());
    v
}

pub fn p2_units() -> (v: Vec<(char, (u32, u32))>)
    ensures
        v@ == spec_p2_units(),
{
    let v = vec![
        ('l', (46u32, 8u32)), ('l', (45u32, 10u32)), ('l', (46u32, 12u32)), ('l', (51u32, 17u32)), ('l', (55u32, 17u32)), ('l', (53u32, 18u32)),
        ('r', (49u32, 9u32)), ('r', (47u32, 10u32)), ('r', (54u32, 14u32)), ('r', (53u32, 16u32)),
        ('m', (50u32, 10u32)), ('m', (53u32, 13u32)), ('m', (48u32, 12u32)),
        ('g', (53u32, 10u32)),
        ('s', (52u32, 10u32)), ('s', (53u32, 11u32)),
    ];
    assert(v@ =~= spec_p2_units());
    v
}

pub fn barbarian_units() -> (v: Vec<(char, (u32, u32))>)
    ensures
        v@ == spec_barbarian_units(),
{
    let v = vec![
        ('l', (4u32, 6u32)), ('l', (6u32, 8u32)), ('l', (7u32, 7u32)), ('r', (8u32, 5u32)),
        ('l', (59u32, 56u32)), ('l', (56u32, 56u32)), ('l', (54u32, 57u32)), ('r', (56u32, 59u32)),
        ('l', (28u32, 15u32)), ('l', (29u32, 10u32)), ('l', (32u32, 11u32)), ('l', (35u32, 15u32)), ('r', (30u32, 8u32)), ('r', (36u32, 10u32)),
        ('l', (28u32, 52u32)), ('l', (28u32, 48u32)), ('l', (33u32, 51u32)), ('l', (35u32, 48u32)), ('r', (32u32, 53u32)), ('r', (33u32, 56u32)),
        ('l', (17u32, 38u32)), ('l', (16u32, 37u32)), ('r', (23u32, 36u32)), ('r', (18u32, 30u32)),
        ('l', (46u32, 25u32)), ('l', (47u32, 26u32)), ('r', (40u32, 27u32)), ('r', (45u32, 33u32)),
    ];
    assert(v@ =~= spec_barbarian_units());
    v
}

/// The side whose castle is '1' is this player's: the player's units start
/// there, the enemy's at the other castle.
pub open spec fn spec_own_units(player_team: Team) -> Seq<(char, (u32, u32))> {
    if player_team == Team::Player { spec_p1_units() } else { spec_p2_units() }
}

pub open spec fn spec_other_units(player_team: Team) -> Seq<(char, (u32, u32))> {
    if player_team == Team::Player { spec_p2_units() } else { spec_p1_units() }
}

/// Whether every unit of `list` stands on a tile of `tiles`.
pub open spec fn spec_units_on_tiles(list: Seq<(char, (u32, u32))>, tiles: Map<(u32, u32), Tile>) -> bool {
    forall|i: int| 0 <= i < list.len() ==> tiles.contains_key(((#[trigger] list[i]).1.1, list[i].1.0))
}

/// Whether the map of `lines` can be played: its coordinates fit in 32 bits,
/// both castles are off the map's edges, the camps are not too many, and
/// every starting unit stands on a tile.
pub open spec fn spec_map_playable(player_team: Team, map_width: usize, lines: Seq<Seq<char>>) -> bool {
    let g = spec_letter_grid(player_team, map_width, lines);
    let cells = spec_cells(g, g.len() as int);
    let pc = spec_last_found(cells, '1');
    let ec = spec_last_found(cells, '2');
    let tiles = spec_grid_tiles(g);
    &&& g.len() <= u32::MAX
    &&& forall|x: int| 0 <= x < g.len() ==> (#[trigger] g[x]).len() <= u32::MAX
    &&& 1 <= pc.0 < u32::MAX && 1 <= pc.1 < u32::MAX
    &&& 1 <= ec.0 < u32::MAX && 1 <= ec.1 < u32::MAX
    &&& spec_camp_cells(cells).len() <= u32::MAX - 3
    &&& spec_units_on_tiles(spec_p1_units(), tiles)
    &&& spec_units_on_tiles(spec_p2_units(), tiles)
    &&& spec_units_on_tiles(spec_barbarian_units(), tiles)
}

/// Whether `g` is the game laid out from `lines` for a player on
/// `player_team`, before its first turn is prepared: the tiles of the map
/// with the starting units on them, the castles and camps as objectives,
/// nothing selected, and the banner of the first turn shown.
pub open spec fn spec_laid_out(g: GameMap, player_team: Team, map_width: usize, lines: Seq<Seq<char>>) -> bool {
    let grid = spec_letter_grid(player_team, map_width, lines);
    let cells = spec_cells(grid, grid.len() as int);
    let camps = spec_camp_cells(cells);
    let t1 = spec_marked_tiles(spec_grid_tiles(grid), Team::Player, spec_own_units(player_team));
    let t2 = spec_marked_tiles(t1, Team::Enemy, spec_other_units(player_team));
    &&& g.map_tiles@ == spec_marked_tiles(t2, Team::Barbarians, spec_barbarian_units())
    &&& g.map_size == (map_width, map_width)
    &&& g.objectives.p1_castle == spec_last_found(cells, '1')
    &&& g.objectives.p2_castle == spec_last_found(cells, '2')
    &&& g.objectives.p1_castle_turns == 0
    &&& g.objectives.p2_castle_turns == 0
    &&& g.objectives.barbarian_camps@ == camps
    &&& g.objectives.barbarian_camps_turns@ == Map::new(|c: (u32, u32)| camps.contains(c), |c: (u32, u32)| 0u32)
    &&& g.objectives.barbarian_camps_teams@ == Map::new(|c: (u32, u32)| camps.contains(c), |c: (u32, u32)| None::<Team>)
    &&& g.player_units@ == spec_placed_units(Map::empty(), Team::Player, spec_own_units(player_team))
    &&& g.enemy_units@ == spec_placed_units(Map::empty(), Team::Enemy, spec_other_units(player_team))
    &&& g.barbarian_units@ == spec_placed_units(Map::empty(), Team::Barbarians, spec_barbarian_units())
    &&& g.possible_moves@.len() == 0
    &&& g.possible_attacks@.len() == 0
    &&& g.actual_attacks@.len() == 0
    &&& g.unit_interface is None
    &&& g.choose_unit_interface is None
    &&& g.player_state == (PlayerState {
        team: player_team,
        current_turn: Team::Player,
        active_unit_i: -1i32,
        active_unit_j: -1i32,
        current_player_action: PlayerAction::Default,
    })
    &&& spec_shows(g.banner, BANNER_TURN_P1@)
    &&& g.event_list@.len() == 0
    &&& g.event_list_index == 0
    &&& g.winning_team is None
    &&& g.damage_reports@.len() == 0
}

/// Whether every unit of `list` stands on a tile of `tiles`.
fn units_on_tiles(list: &Vec<(char, (u32, u32))>, tiles: &TileMap) -> (b: bool)
    ensures
        b == spec_units_on_tiles(list@, tiles@),
{
    let mut i: usize = 0;
    while i < list.len()
        invariant
            i <= list@.len(),
            forall|j: int| 0 <= j < i ==> tiles@.contains_key(((#[trigger] list@[j]).1.1, list@[j].1.0)),
        decreases list@.len() - i,
    {
        let (_, pos) = list[i];
        if !tiles.contains_key((pos.1, pos.0)) {
            return false;
        }
        i += 1;
    }
    true
}

/// Whether the map of `lines` can be played (see `spec_map_playable`).
pub fn map_is_playable(player_team: Team, map_width: usize, lines: &Vec<Vec<char>>) -> (b: bool)
    ensures
        b == spec_map_playable(player_team, map_width, spec_grid_view(lines@)),
{
    let g = letter_grid(player_team, map_width, lines);
    let ghost gv = spec_grid_view(g@);
    if g.len() > 0xffff_ffffusize {
        return false;
    }
    let mut x: usize = 0;
    while x < g.len()
        invariant
            gv == spec_grid_view(g@),
            gv == spec_letter_grid(player_team, map_width, spec_grid_view(lines@)),
            x <= g@.len(),
            forall|k: int| 0 <= k < x ==> (#[trigger] gv[k]).len() <= u32::MAX,
        decreases g@.len() - x,
    {
        if g[x].len() > 0xffff_ffffusize {
            assert(gv[x as int] == g@[x as int]@);
            assert(!(gv[x as int].len() <= u32::MAX));
            return false;
        }
        x += 1;
    }
    assert forall|k: int| 0 <= k < g@.len() implies (#[trigger] g@[k])@.len() <= u32::MAX by {
        assert(gv[k] == g@[k]@);
    }
    let l = lay_out(&g);
    let pc = l.player_castle;
    let ec = l.enemy_castle;
    if !(1 <= pc.0 && pc.0 < u32::MAX && 1 <= pc.1 && pc.1 < u32::MAX) {
        return false;
    }
    if !(1 <= ec.0 && ec.0 < u32::MAX && 1 <= ec.1 && ec.1 < u32::MAX) {
        return false;
    }
    if l.camps.len() > 0xffff_fffcusize {
        return false;
    }
    units_on_tiles(&p1_units(), &l.tiles) && units_on_tiles(&p2_units(), &l.tiles) && units_on_tiles(&barbarian_units(), &l.tiles)
}

/// The event that tells the other side that `winner` won; the winner is sent
/// as the other side sees it.
pub open spec fn spec_end_game_event(winner: Team, player_team: Team) -> Event {
    Event {
        action: EVENT_END_GAME,
        id: spec_team_id(spec_as_client(winner, player_team)),
        from_pos: (0, 0),
        to_pos: (0, 0),
        value: 0,
        from_self: true,
    }
}

/// Whether banner `b` shows the banner with key `key`, fully opaque.
pub open spec fn spec_shows(b: Banner, key: Seq<char>) -> bool {
    &&& b.banner_key@ == key
    &&& b.banner_colors == spec_banner_color(key)
    &&& b.current_banner_transparency == BANNER_ALPHA
    &&& b.banner_visible
    &&& b.wf()
}

/// Whether tile key `k` (row, column) is in the 3x3 block of tiles around the
/// castle at `c` (column, row).
pub open spec fn spec_in_block(c: (u32, u32), k: (u32, u32)) -> bool {
    &&& c.1 - 1 <= k.0 <= c.1 + 1
    &&& c.0 - 1 <= k.1 <= c.0 + 1
}

/// Tile `t` with its unit mark set right for `team`: marked as `team` where
/// `team` has a unit on it, unmarked where it claims a unit of `team` that is
/// not there, and as it was otherwise.
pub open spec fn spec_fixed_tile(t: Tile, team: Team, has_unit: bool) -> Tile {
    if has_unit {
        Tile { contained_unit_team: Some(team), ..t }
    } else if t.contained_unit_team == Some(team) {
        Tile { contained_unit_team: None, ..t }
    } else {
        t
    }
}

/// The tiles of the block around the castle at `c` with their marks set right
/// against the units `units` of `team`; the other tiles as they are.
pub open spec fn spec_reconciled(
    tiles: Map<(u32, u32), Tile>,
    c: (u32, u32),
    team: Team,
    units: Map<(u32, u32), Unit>,
) -> Map<(u32, u32), Tile> {
    Map::new(
        |k: (u32, u32)| tiles.contains_key(k),
        |k: (u32, u32)|
            if spec_in_block(c, k) {
                spec_fixed_tile(tiles[k], team, units.contains_key((k.1, k.0)))
            } else {
                tiles[k]
            },
    )
}

/// The units of `m`, all free to move and attack again.
pub open spec fn spec_next_turned(m: Map<(u32, u32), Unit>) -> Map<(u32, u32), Unit> {
    Map::new(
        |p: (u32, u32)| m.contains_key(p),
        |p: (u32, u32)| Unit { has_attacked: false, has_moved: false, ..m[p] },
    )
}

/// The winner once the objectives have been checked for `client_team`: that
/// team if it holds the opposing castle, else the enemy if the player has no
/// units left, else the player if the enemy has none.
pub open spec fn spec_turn_winner(
    objectives: ObjectiveManager,
    client_team: Team,
    player_units: Map<(u32, u32), Unit>,
    enemy_units: Map<(u32, u32), Unit>,
) -> Option<Team> {
    if spec_has_won(objectives, client_team) {
        Some(client_team)
    } else if player_units.dom().len() == 0 {
        Some(Team::Enemy)
    } else if enemy_units.dom().len() == 0 {
        Some(Team::Player)
    } else {
        None
    }
}

/// What preparing `team`'s turn makes of game `before`: the turn banner of
/// the team as this client sees it; the unit marks around the castles set
/// right; the objectives checked for that team; the winner, if any, set;
/// and `team`'s units free to move again.
pub open spec fn spec_turn_initialized(before: GameMap, after: GameMap, team: Team) -> bool {
    let ct = spec_as_client(team, before.player_state.team);
    let winner = spec_turn_winner(after.objectives, ct, before.player_units@, before.enemy_units@);
    &&& after.map_tiles@ == spec_reconciled(
        spec_reconciled(before.map_tiles@, before.objectives.p1_castle, Team::Player, before.player_units@),
        before.objectives.p2_castle,
        Team::Enemy,
        before.enemy_units@,
    )
    &&& spec_objectives_checked(before.objectives, after.objectives, ct, spec_team_units(before, ct))
    &&& match winner {
        None => {
            &&& spec_shows(after.banner, spec_turn_banner_key(ct))
            &&& after.event_list@ == before.event_list@
            &&& after.winning_team == before.winning_team
        },
        Some(w) => {
            &&& after.winning_team == Some(w)
            &&& after.event_list@ == before.event_list@.push(spec_end_game_event(w, before.player_state.team))
            &&& w == Team::Player ==> spec_shows(after.banner, BANNER_WIN_P1@)
            &&& w == Team::Enemy ==> spec_shows(after.banner, BANNER_WIN_P2@)
        },
    }
    &&& after.player_units@ == (if team == Team::Player { spec_next_turned(before.player_units@) } else { before.player_units@ })
    &&& after.enemy_units@ == (if team == Team::Enemy { spec_next_turned(before.enemy_units@) } else { before.enemy_units@ })
    &&& after.barbarian_units@ == (if team == Team::Barbarians { spec_next_turned(before.barbarian_units@) } else { before.barbarian_units@ })
    &&& after.map_size == before.map_size
    &&& after.possible_moves == before.possible_moves
    &&& after.possible_attacks == before.possible_attacks
    &&& after.actual_attacks == before.actual_attacks
    &&& after.unit_interface == before.unit_interface
    &&& after.choose_unit_interface == before.choose_unit_interface
    &&& after.player_state == before.player_state
    &&& after.event_list_index == before.event_list_index
    &&& after.damage_reports == before.damage_reports
}

/// Sets the marks of the tiles of the block around the castle at `c` right
/// against the units `units` of `team`.
fn reconcile_block(tiles: &mut TileMap, c: (u32, u32), team: Team, units: &UnitMap)
    requires
        1 <= c.0 < u32::MAX,
        1 <= c.1 < u32::MAX,
    ensures
        final(tiles)@ == spec_reconciled(old(tiles)@, c, team, units@),
{
    let ghost t0 = old(tiles)@;
    let mut di: u32 = 0;
    while di < 3
        invariant
            1 <= c.0 < u32::MAX,
            1 <= c.1 < u32::MAX,
            di <= 3,
            tiles@ == Map::new(
                |k: (u32, u32)| t0.contains_key(k),
                |k: (u32, u32)|
                    if spec_in_block(c, k) && k.0 < c.1 - 1 + di {
                        spec_fixed_tile(t0[k], team, units@.contains_key((k.1, k.0)))
                    } else {
                        t0[k]
                    },
            ),
        decreases 3 - di,
    {
        let i = c.1 - 1 + di;
        let mut dj: u32 = 0;
        while dj < 3
            invariant
                1 <= c.0 < u32::MAX,
                1 <= c.1 < u32::MAX,
                di < 3,
                i == c.1 - 1 + di,
                dj <= 3,
                tiles@ == Map::new(
                    |k: (u32, u32)| t0.contains_key(k),
                    |k: (u32, u32)|
                        if spec_in_block(c, k) && (k.0 < i || (k.0 == i && k.1 < c.0 - 1 + dj)) {
                            spec_fixed_tile(t0[k], team, units@.contains_key((k.1, k.0)))
                        } else {
                            t0[k]
                        },
                ),
            decreases 3 - dj,
        {
            let j = c.0 - 1 + dj;
            match tiles.get((i, j)) {
                Some(tile) => {
                    if units.contains_key((j, i)) {
                        tiles.update_team((i, j), Some(team));
                    } else if tile.contained_unit_team == Some(team) {
                        tiles.update_team((i, j), None);
                    }
                },
                None => {},
            }
            proof {
                assert(tiles@ =~= Map::new(
                    |k: (u32, u32)| t0.contains_key(k),
                    |k: (u32, u32)|
                        if spec_in_block(c, k) && (k.0 < i || (k.0 == i && k.1 < c.0 - 1 + dj + 1)) {
                            spec_fixed_tile(t0[k], team, units@.contains_key((k.1, k.0)))
                        } else {
                            t0[k]
                        },
                ));
            }
            dj += 1;
        }
        proof {
            assert(tiles@ =~= Map::new(
                |k: (u32, u32)| t0.contains_key(k),
                |k: (u32, u32)|
                    if spec_in_block(c, k) && k.0 < c.1 - 1 + di + 1 {
                        spec_fixed_tile(t0[k], team, units@.contains_key((k.1, k.0)))
                    } else {
                        t0[k]
                    },
            ));
        }
        di += 1;
    }
    assert(tiles@ =~= spec_reconciled(t0, c, team, units@));
}

/// Whether `r` is an error with message `msg`.
pub open spec fn spec_is_err<T>(r: Result<T, String>, msg: Seq<char>) -> bool {
    match r {
        Err(e) => e@ == msg,
        Ok(_) => false,
    }
}

/// Where a damage number is shown after an attack: how much damage was
/// dealt, and the matrix indices (row, column) of the tile above the unit hit
/// (the unit's own tile on the top row).
#[derive(Clone, Copy, Debug, PartialEq, Eq, Structural)]
pub struct DamageReport {
    pub damage: u32,
    pub i: u32,
    pub j: u32,
}

/// Whether games `a` and `b` agree on everything but their tiles and units.
pub open spec fn spec_same_but_board(a: GameMap, b: GameMap) -> bool {
    &&& spec_same_but_board_and_reports(a, b)
    &&& a.damage_reports == b.damage_reports
}

/// Whether games `a` and `b` agree on everything but their tiles, units and damage reports.
pub open spec fn spec_same_but_board_and_reports(a: GameMap, b: GameMap) -> bool {
    &&& a.map_size == b.map_size
    &&& a.objectives == b.objectives
    &&& a.possible_moves == b.possible_moves
    &&& a.possible_attacks == b.possible_attacks
    &&& a.actual_attacks == b.actual_attacks
    &&& a.unit_interface == b.unit_interface
    &&& a.choose_unit_interface == b.choose_unit_interface
    &&& a.player_state == b.player_state
    &&& a.banner == b.banner
    &&& a.event_list == b.event_list
    &&& a.event_list_index == b.event_list_index
    &&& a.winning_team == b.winning_team
}

/// Whether games `a` and `b` are the same.
pub open spec fn spec_unchanged(a: GameMap, b: GameMap) -> bool {
    &&& spec_same_but_board(a, b)
    &&& a.map_tiles == b.map_tiles
    &&& a.player_units == b.player_units
    &&& a.enemy_units == b.enemy_units
    &&& a.barbarian_units == b.barbarian_units
}

/// Whether `after` holds units `m` for team `t` and the units of `before` for the other teams.
pub open spec fn spec_units_set(before: GameMap, after: GameMap, t: Team, m: Map<(u32, u32), Unit>) -> bool {
    &&& spec_team_units(after, t) == m
    &&& forall|t2: Team| t2 != t ==> #[trigger] spec_team_units(after, t2) == spec_team_units(before, t2)
}

/// The unit a spawn event with unit class `value` creates for `team` at
/// `pos`: a melee unit, an archer, or otherwise a mage, that can neither move
/// nor attack this turn.
pub open spec fn spec_spawned_unit(team: Team, value: u8, pos: (u32, u32)) -> Unit {
    let c = if value == EVENT_UNIT_MELEE { 'l' } else if value == EVENT_UNIT_ARCHER { 'r' } else { 'm' };
    Unit { has_moved: true, has_attacked: true, ..spec_unit_for(team, c, pos) }
}

/// What applying `event` makes of game `before`, with result `r`, once the
/// tiles of both of its positions are known to exist. Positions in events are
/// unit positions (x, y); their tiles are under (y, x).
pub open spec fn spec_event_applied(before: GameMap, after: GameMap, event: Event, r: Result<(), String>) -> bool {
    let from_tile = (event.from_pos.1, event.from_pos.0);
    let to_tile = (event.to_pos.1, event.to_pos.0);
    let ft = before.map_tiles@[from_tile].contained_unit_team;
    let tt = before.map_tiles@[to_tile].contained_unit_team;
    if event.action == EVENT_MOVE {
        match ft {
            None => spec_is_err(r, "No specified unit on event 'from' tile"@) && spec_unchanged(before, after),
            Some(t) => {
                let units = spec_team_units(before, t);
                if from_tile.0 == to_tile.0 && from_tile.1 == to_tile.1 {
                    &&& r == Ok::<(), String>(())
                    &&& spec_same_but_board(before, after)
                    &&& after.map_tiles == before.map_tiles
                    &&& spec_units_set(before, after, t, if units.contains_key(event.from_pos) {
                        units.insert(event.from_pos, Unit { has_moved: true, ..units[event.from_pos] })
                    } else {
                        units
                    })
                } else if tt is Some {
                    spec_is_err(r, "Could not apply event: 'to' tile already contains another unit"@) && spec_unchanged(before, after)
                } else if !units.contains_key(event.from_pos) {
                    spec_is_err(r, "Could not get selected unit for event"@) && spec_unchanged(before, after)
                } else if units[event.from_pos].has_moved {
                    spec_is_err(r, "Could not apply event: selected unit has already been moved in this turn"@) && spec_unchanged(before, after)
                } else {
                    &&& r == Ok::<(), String>(())
                    &&& spec_same_but_board(before, after)
                    &&& after.map_tiles@ == spec_marked(spec_marked(before.map_tiles@, from_tile, None), to_tile, ft)
                    &&& spec_units_set(before, after, t, units.remove(event.from_pos).insert(
                        event.to_pos,
                        Unit { x: event.to_pos.0, y: event.to_pos.1, has_moved: true, ..units[event.from_pos] },
                    ))
                }
            },
        }
    } else if event.action == EVENT_ATTACK {
        if !(ft is Some && tt is Some && ft != tt) {
            spec_is_err(r, "No specified attacking unit on event 'from' tile"@) && spec_unchanged(before, after)
        } else {
            let at = ft->0;
            let dt = tt->0;
            let attackers = spec_team_units(before, at);
            let defenders = spec_team_units(before, dt);
            if !attackers.contains_key(event.from_pos) {
                spec_is_err(r, "Could not get selected attacker unit for event"@) && spec_unchanged(before, after)
            } else if !defenders.contains_key(event.to_pos) {
                spec_is_err(r, "Could not get selected defender unit for event"@) && spec_unchanged(before, after)
            } else {
                let a = attackers[event.from_pos];
                let d = defenders[event.to_pos];
                let a2 = Unit { has_attacked: true, starting_x: a.x, starting_y: a.y, ..a };
                &&& r == Ok::<(), String>(())
                &&& after.damage_reports@ == before.damage_reports@.push(DamageReport {
                    damage: event.value as u32,
                    i: if d.y >= 1 { (d.y - 1) as u32 } else { d.y },
                    j: d.x,
                })
                &&& spec_same_but_board_and_reports(before, after)
                &&& after.map_tiles == before.map_tiles
                &&& spec_team_units(after, at) == attackers.insert(event.from_pos, a2)
                &&& spec_team_units(after, dt) == defenders.insert(event.to_pos, spec_damaged(d, event.value as u32, a2.ranged_attacker))
                &&& forall|t3: Team| t3 != at && t3 != dt ==> #[trigger] spec_team_units(after, t3) == spec_team_units(before, t3)
            }
        }
    } else if event.action == EVENT_END_TURN {
        let next = spec_next_team(before.player_state.current_turn);
        let mid = GameMap { player_state: PlayerState { current_turn: next, ..before.player_state }, ..before };
        r == Ok::<(), String>(()) && spec_turn_initialized(mid, after, next)
    } else if event.action == EVENT_SPAWN_UNIT {
        let team = if event.from_self { Team::Player } else { Team::Enemy };
        &&& r == Ok::<(), String>(())
        &&& spec_same_but_board(before, after)
        &&& after.map_tiles@ == spec_marked(before.map_tiles@, to_tile, Some(team))
        &&& spec_units_set(before, after, team, spec_team_units(before, team).insert(
            event.to_pos,
            spec_spawned_unit(team, event.value, event.to_pos),
        ))
    } else if event.action == EVENT_END_GAME {
        if before.winning_team is Some {
            r == Ok::<(), String>(()) && spec_unchanged(before, after)
        } else {
            match spec_team_from_id(event.id) {
                None => spec_is_err(r, "Invalid team id"@) && spec_unchanged(before, after),
                Some(t) => {
                    let w = spec_as_client(t, before.player_state.team);
                    &&& r == Ok::<(), String>(())
                    &&& after.winning_team == Some(w)
                    &&& after.event_list@ == before.event_list@.push(spec_end_game_event(w, before.player_state.team))
                    &&& w == Team::Player ==> spec_shows(after.banner, BANNER_WIN_P1@)
                    &&& w == Team::Enemy ==> spec_shows(after.banner, BANNER_WIN_P2@)
                    &&& w == Team::Barbarians ==> after.banner == before.banner
                    &&& after.map_tiles == before.map_tiles
                    &&& after.map_size == before.map_size
                    &&& after.objectives == before.objectives
                    &&& after.player_units == before.player_units
                    &&& after.enemy_units == before.enemy_units
                    &&& after.barbarian_units == before.barbarian_units
                    &&& after.possible_moves == before.possible_moves
                    &&& after.possible_attacks == before.possible_attacks
                    &&& after.actual_attacks == before.actual_attacks
                    &&& after.unit_interface == before.unit_interface
                    &&& after.choose_unit_interface == before.choose_unit_interface
                    &&& after.player_state == before.player_state
                    &&& after.event_list_index == before.event_list_index
                    &&& after.damage_reports == before.damage_reports
                },
            }
        }
    } else {
        r == Ok::<(), String>(()) && spec_unchanged(before, after)
    }
}

/// Moves the unit at `from_pos` of `units` to `to_pos`, unless it has
/// already moved this turn.
fn move_in(units: &mut UnitMap, from_pos: (u32, u32), to_pos: (u32, u32)) -> (r: Result<(), String>)
    ensures
        !old(units)@.contains_key(from_pos) ==> spec_is_err(r, "Could not get selected unit for event"@) && *final(units) == *old(units),
        old(units)@.contains_key(from_pos) && old(units)@[from_pos].has_moved ==> spec_is_err(r, "Could not apply event: selected unit has already been moved in this turn"@) && *final(units) == *old(units),
        old(units)@.contains_key(from_pos) && !old(units)@[from_pos].has_moved ==> r is Ok && final(units)@ == old(units)@.remove(from_pos).insert(
            to_pos,
            Unit { x: to_pos.0, y: to_pos.1, has_moved: true, ..old(units)@[from_pos] },
        ),
{
    match units.get(from_pos) {
        None => Err("Could not get selected unit for event".to_string()),
        Some(u) => {
            if u.has_moved {
                return Err("Could not apply event: selected unit has already been moved in this turn".to_string());
            }
            let removed = units.remove(from_pos);
            let mut unit = u;
            unit.update_pos(to_pos.0, to_pos.1);
            unit.has_moved = true;
            units.insert(unit);
            Ok(())
        },
    }
}

/// Marks the unit at `pos` of `units`, if there is one, as moved.
fn mark_moved(units: &mut UnitMap, pos: (u32, u32))
    ensures
        final(units)@ == (if old(units)@.contains_key(pos) {
            old(units)@.insert(pos, Unit { has_moved: true, ..old(units)@[pos] })
        } else {
            old(units)@
        }),
{
    match units.get(pos) {
        Some(u) => {
            let mut unit = u;
            unit.has_moved = true;
            units.insert(unit);
        },
        None => {},
    }
}

/// The unit at `from_pos` of `attackers` attacks the unit at `to_pos` of
/// `defenders` for `value` damage.
fn attack_in(attackers: &mut UnitMap, defenders: &mut UnitMap, from_pos: (u32, u32), to_pos: (u32, u32), value: u8) -> (r: Result<DamageReport, String>)
    ensures
        !old(attackers)@.contains_key(from_pos) ==> spec_is_err(r, "Could not get selected attacker unit for event"@)
            && *final(attackers) == *old(attackers) && *final(defenders) == *old(defenders),
        old(attackers)@.contains_key(from_pos) && !old(defenders)@.contains_key(to_pos) ==> spec_is_err(r, "Could not get selected defender unit for event"@)
            && *final(attackers) == *old(attackers) && *final(defenders) == *old(defenders),
        old(attackers)@.contains_key(from_pos) && old(defenders)@.contains_key(to_pos) ==> {
            let a = old(attackers)@[from_pos];
            let d = old(defenders)@[to_pos];
            let a2 = Unit { has_attacked: true, starting_x: a.x, starting_y: a.y, ..a };
            &&& r == Ok::<DamageReport, String>(DamageReport {
                damage: value as u32,
                i: if d.y >= 1 { (d.y - 1) as u32 } else { d.y },
                j: d.x,
            })
            &&& final(attackers)@ == old(attackers)@.insert(from_pos, a2)
            &&& final(defenders)@ == old(defenders)@.insert(to_pos, spec_damaged(d, value as u32, a2.ranged_attacker))
        },
{
    let mut attacking_unit = match attackers.get(from_pos) {
        Some(u) => u,
        None => {
            return Err("Could not get selected attacker unit for event".to_string());
        },
    };
    let mut unit = match defenders.get(to_pos) {
        Some(u) => u,
        None => {
            return Err("Could not get selected defender unit for event".to_string());
        },
    };
    attacking_unit.has_attacked = true;
    attacking_unit.starting_x = attacking_unit.x;
    attacking_unit.starting_y = attacking_unit.y;
    unit.receive_damage(value as u32, &attacking_unit);
    attackers.insert(attacking_unit);
    defenders.insert(unit);
    let i = match unit.y.checked_sub(1) {
        Some(v) => v,
        None => unit.y,
    };
    Ok(DamageReport { damage: value as u32, i, j: unit.x })
}

/// The state of a game as one client sees it. The renderer keeps the
/// textures, the unit panels, the cursor and the damage numbers beside it.
pub struct GameMap {
    /// The tiles under (row, column) keys.
    pub map_tiles: TileMap,
    pub map_size: (usize, usize),
    pub objectives: ObjectiveManager,
    /// The units of each team under (x, y) keys; a unit at (x, y) stands on
    /// the tile under key (y, x).
    pub player_units: UnitMap,
    pub enemy_units: UnitMap,
    pub barbarian_units: UnitMap,
    pub possible_moves: Vec<(u32, u32)>,
    pub possible_attacks: Vec<(u32, u32)>,
    pub actual_attacks: Vec<(u32, u32)>,
    /// The scroll of the selected unit, and the scroll for choosing a new unit.
    pub unit_interface: Option<UnitInterface>,
    pub choose_unit_interface: Option<UnitInterface>,
    pub player_state: PlayerState,
    pub banner: Banner,
    /// Every event of the game so far, and how many of them have been applied.
    pub event_list: Vec<Event>,
    pub event_list_index: usize,
    pub winning_team: Option<Team>,
    /// Damage dealt by attacks, in order, until the renderer shows it.
    pub damage_reports: Vec<DamageReport>,
}

/// The units of team `t` in game `g`.
pub open spec fn spec_team_units(g: GameMap, t: Team) -> Map<(u32, u32), Unit> {
    match t {
        Team::Player => g.player_units@,
        Team::Enemy => g.enemy_units@,
        Team::Barbarians => g.barbarian_units@,
    }
}

/// The unit at `pos` (x, y) of game `g`, found through the team its tile
/// names, if there is one.
pub open spec fn spec_unit_at(g: GameMap, pos: (u32, u32)) -> Option<Unit> {
    let k = (pos.1, pos.0);
    if g.map_tiles@.contains_key(k) {
        match g.map_tiles@[k].contained_unit_team {
            Some(t) => if spec_team_units(g, t).contains_key(pos) { Some(spec_team_units(g, t)[pos]) } else { None },
            None => None,
        }
    } else {
        None
    }
}

impl GameMap {
    /// The castles are off the map's edges and the camps off its far edges,
    /// so that the tiles around them have keys; the objectives and the banner
    /// are well formed.
    pub open spec fn wf(&self) -> bool {
        &&& self.objectives.wf()
        &&& 1 <= self.objectives.p1_castle.0 < u32::MAX
        &&& 1 <= self.objectives.p1_castle.1 < u32::MAX
        &&& 1 <= self.objectives.p2_castle.0 < u32::MAX
        &&& 1 <= self.objectives.p2_castle.1 < u32::MAX
        &&& forall|i: int| 0 <= i < self.objectives.barbarian_camps@.len()
            ==> (#[trigger] self.objectives.barbarian_camps@[i]).0 < u32::MAX
                && self.objectives.barbarian_camps@[i].1 < u32::MAX
        &&& self.banner.wf()
    }

    /// Whether the game is well formed (see `wf`).
    pub fn is_wf(&self) -> (b: bool)
        ensures
            b == self.wf(),
    {
        let (c1, c2) = (self.objectives.p1_castle, self.objectives.p2_castle);
        if !(1 <= c1.0 && c1.0 < 0xffff_ffffu32 && 1 <= c1.1 && c1.1 < 0xffff_ffffu32
            && 1 <= c2.0 && c2.0 < 0xffff_ffffu32 && 1 <= c2.1 && c2.1 < 0xffff_ffffu32) {
            return false;
        }
        if self.banner.current_banner_transparency % crate::banner::BANNER_FADE_STEP != 0 {
            return false;
        }
        if self.objectives.barbarian_camps.len() > 0xffff_fffcusize {
            return false;
        }
        let mut i: usize = 0;
        while i < self.objectives.barbarian_camps.len()
            invariant
                i <= self.objectives.barbarian_camps@.len(),
                self.objectives.barbarian_camps@.len() <= u32::MAX - 3,
                forall|k: int| 0 <= k < i ==> {
                    let c = #[trigger] self.objectives.barbarian_camps@[k];
                    &&& self.objectives.barbarian_camps_turns@.contains_key(c)
                    &&& self.objectives.barbarian_camps_turns@[c] < crate::objective_manager::TURNS_TO_CAPTURE
                    &&& self.objectives.barbarian_camps_teams@.contains_key(c)
                    &&& c.0 < u32::MAX && c.1 < u32::MAX
                },
            decreases self.objectives.barbarian_camps@.len() - i,
        {
            let c = self.objectives.barbarian_camps[i];
            let turns_ok = match self.objectives.barbarian_camps_turns.get(c) {
                Some(t) => t < crate::objective_manager::TURNS_TO_CAPTURE,
                None => false,
            };
            if !turns_ok || !self.objectives.barbarian_camps_teams.contains_key(c) || c.0 == 0xffff_ffffu32 || c.1 == 0xffff_ffffu32 {
                proof {
                    assert(self.objectives.barbarian_camps@[i as int] == c);
                }
                return false;
            }
            i += 1;
        }
        true
    }

    /// Fixes any disparity between the units and the tiles' unit marks around
    /// both castles: each tile of the block around the player's castle is
    /// marked as the player exactly where a player unit stands, then each tile
    /// around the enemy's castle as the enemy exactly where an enemy unit stands.
    pub fn correct_map_errors(&mut self)
        requires
            1 <= old(self).objectives.p1_castle.0 < u32::MAX,
            1 <= old(self).objectives.p1_castle.1 < u32::MAX,
            1 <= old(self).objectives.p2_castle.0 < u32::MAX,
            1 <= old(self).objectives.p2_castle.1 < u32::MAX,
        ensures
            final(self).map_tiles@ == spec_reconciled(
                spec_reconciled(old(self).map_tiles@, old(self).objectives.p1_castle, Team::Player, old(self).player_units@),
                old(self).objectives.p2_castle,
                Team::Enemy,
                old(self).enemy_units@,
            ),
            forall|k: (u32, u32)| #[trigger] final(self).map_tiles@.contains_key(k)
                && spec_in_block(old(self).objectives.p2_castle, k)
                ==> (final(self).map_tiles@[k].contained_unit_team == Some(Team::Enemy)
                    <==> old(self).enemy_units@.contains_key((k.1, k.0))),
            forall|k: (u32, u32)| #[trigger] final(self).map_tiles@.contains_key(k)
                && spec_in_block(old(self).objectives.p1_castle, k)
                && !(spec_in_block(old(self).objectives.p2_castle, k) && old(self).enemy_units@.contains_key((k.1, k.0)))
                ==> (final(self).map_tiles@[k].contained_unit_team == Some(Team::Player)
                    <==> old(self).player_units@.contains_key((k.1, k.0))),
            final(self).map_size == old(self).map_size,
            final(self).objectives == old(self).objectives,
            final(self).player_units == old(self).player_units,
            final(self).enemy_units == old(self).enemy_units,
            final(self).barbarian_units == old(self).barbarian_units,
            final(self).possible_moves == old(self).possible_moves,
            final(self).possible_attacks == old(self).possible_attacks,
            final(self).actual_attacks == old(self).actual_attacks,
            final(self).unit_interface == old(self).unit_interface,
            final(self).choose_unit_interface == old(self).choose_unit_interface,
            final(self).player_state == old(self).player_state,
            final(self).banner == old(self).banner,
            final(self).event_list == old(self).event_list,
            final(self).event_list_index == old(self).event_list_index,
            final(self).winning_team == old(self).winning_team,
            final(self).damage_reports == old(self).damage_reports,
    {
        reconcile_block(&mut self.map_tiles, self.objectives.p1_castle, Team::Player, &self.player_units);
        reconcile_block(&mut self.map_tiles, self.objectives.p2_castle, Team::Enemy, &self.enemy_units);
    }

    /// The unit at `pos` (x, y): the tile under it says which team's units to look in.
    pub fn get_unit(&self, pos: &(u32, u32)) -> (r: Result<Unit, String>)
        ensures
            r is Ok <==> spec_unit_at(*self, *pos) is Some,
            spec_unit_at(*self, *pos) matches Some(u) ==> r == Ok::<Unit, String>(u),
            !self.map_tiles@.contains_key((pos.1, pos.0)) ==> (spec_is_err(r, "Could not get map tile at unit position"@)),
            self.map_tiles@.contains_key((pos.1, pos.0)) ==> match self.map_tiles@[(pos.1, pos.0)].contained_unit_team {
                None => spec_is_err(r, "No unit in the specified tile position"@),
                Some(t) => if spec_team_units(*self, t).contains_key(*pos) {
                    r == Ok::<Unit, String>(spec_team_units(*self, t)[*pos])
                } else {
                    spec_is_err(r, "Could not get unit at position"@)
                },
            },
    {
        let unit_tile = match self.map_tiles.get((pos.1, pos.0)) {
            Some(t) => t,
            None => {
                return Err("Could not get map tile at unit position".to_string());
            },
        };
        let found = match unit_tile.contained_unit_team {
            Some(Team::Player) => self.player_units.get(*pos),
            Some(Team::Enemy) => self.enemy_units.get(*pos),
            Some(Team::Barbarians) => self.barbarian_units.get(*pos),
            None => {
                return Err("No unit in the specified tile position".to_string());
            },
        };
        match found {
            Some(u) => Ok(u),
            None => Err("Could not get unit at position".to_string()),
        }
    }

    /// Prepares `team`'s turn (see `spec_turn_initialized`).
    pub fn initialize_next_turn(&mut self, team: Team)
        requires
            old(self).wf(),
            old(self).objectives.p1_castle_turns < u32::MAX,
            old(self).objectives.p2_castle_turns < u32::MAX,
        ensures
            final(self).wf(),
            spec_turn_initialized(*old(self), *final(self), team),
    {
        let client_team = team.as_client(&self.player_state);
        self.banner.show_turn(client_team);
        self.correct_map_errors();
        match client_team {
            Team::Player => self.objectives.check_objectives(client_team, &self.player_units),
            Team::Enemy => self.objectives.check_objectives(client_team, &self.enemy_units),
            Team::Barbarians => self.objectives.check_objectives(client_team, &self.barbarian_units),
        }
        proof {
            let o = self.objectives;
            let b = old(self).objectives;
            assert forall|i: int| 0 <= i < o.barbarian_camps@.len() implies
                (#[trigger] o.barbarian_camps@[i]).0 < u32::MAX && o.barbarian_camps@[i].1 < u32::MAX by {
                if client_team != Team::Barbarians {
                    let f = crate::objective_manager::spec_camps_fold(b.barbarian_camps@, b.barbarian_camps_turns@,
                        b.barbarian_camps_teams@, spec_team_units(*old(self), client_team), client_team);
                    let cap = crate::objective_manager::spec_captured(b.barbarian_camps@, f.0);
                    let pred = |c: (u32, u32)| !cap.contains(c);
                    b.barbarian_camps@.lemma_filter_contains_rev(pred, o.barbarian_camps@[i]);
                    assert(o.barbarian_camps@.contains(o.barbarian_camps@[i]));
                    let j = choose|j: int| 0 <= j < b.barbarian_camps@.len() && b.barbarian_camps@[j] == o.barbarian_camps@[i];
                    assert(b.barbarian_camps@[j].0 < u32::MAX);
                }
            }
        }
        if self.objectives.has_won(client_team) {
            self.set_winner(client_team);
        } else if self.player_units.len() == 0 {
            self.set_winner(Team::Enemy);
        } else if self.enemy_units.len() == 0 {
            self.set_winner(Team::Player);
        }
        match team {
            Team::Player => self.player_units.next_turn_all(),
            Team::Enemy => self.enemy_units.next_turn_all(),
            Team::Barbarians => self.barbarian_units.next_turn_all(),
        }
        proof {
            assert(self.player_units@ =~= (if team == Team::Player { spec_next_turned(old(self).player_units@) } else { old(self).player_units@ }));
            assert(self.enemy_units@ =~= (if team == Team::Enemy { spec_next_turned(old(self).enemy_units@) } else { old(self).enemy_units@ }));
            assert(self.barbarian_units@ =~= (if team == Team::Barbarians { spec_next_turned(old(self).barbarian_units@) } else { old(self).barbarian_units@ }));
        }
    }

    /// The game of the map in `lines` (the first `map_width` of them are
    /// rows) for a player on `player_team`, with the starting units placed
    /// and the first turn, the player side's, prepared.
    pub fn new(player_team: Team, map_width: usize, lines: &Vec<Vec<char>>) -> (g: GameMap)
        requires
            spec_map_playable(player_team, map_width, spec_grid_view(lines@)),
        ensures
            g.wf(),
            exists|mid: GameMap| #[trigger] spec_laid_out(mid, player_team, map_width, spec_grid_view(lines@))
                && spec_turn_initialized(mid, g, Team::Player),
            spec_units_agree(g),
            g.player_state.team == player_team,
    {
        let grid = letter_grid(player_team, map_width, lines);
        let ghost gv = spec_grid_view(grid@);
        assert forall|k: int| 0 <= k < grid@.len() implies (#[trigger] grid@[k])@.len() <= u32::MAX by {
            assert(gv[k] == grid@[k]@);
        }
        let layout = lay_out(&grid);
        let mut map_tiles = layout.tiles;
        let objectives = ObjectiveManager::new(layout.player_castle, layout.enemy_castle, layout.camps);
        let own = if player_team == Team::Player { p1_units() } else { p2_units() };
        let other = if player_team == Team::Player { p2_units() } else { p1_units() };
        let barbs = barbarian_units();
        let mut player_units = UnitMap::new();
        let mut enemy_units = UnitMap::new();
        let mut barbarian_units = UnitMap::new();
        prepare_player_units(&mut player_units, Team::Player, &own, &mut map_tiles);
        prepare_player_units(&mut enemy_units, Team::Enemy, &other, &mut map_tiles);
        prepare_player_units(&mut barbarian_units, Team::Barbarians, &barbs, &mut map_tiles);
        let mut map = GameMap {
            map_tiles,
            map_size: (map_width, map_width),
            objectives,
            player_units,
            enemy_units,
            barbarian_units,
            possible_moves: Vec::new(),
            possible_attacks: Vec::new(),
            actual_attacks: Vec::new(),
            unit_interface: None,
            choose_unit_interface: None,
            player_state: PlayerState::new(player_team),
            banner: Banner::new(),
            event_list: Vec::new(),
            event_list_index: 0,
            winning_team: None,
            damage_reports: Vec::new(),
        };
        let ghost mid = map;
        proof {
            assert forall|i: int| 0 <= i < map.objectives.barbarian_camps@.len()
                implies (#[trigger] map.objectives.barbarian_camps@[i]).0 < u32::MAX
                    && map.objectives.barbarian_camps@[i].1 < u32::MAX by {
                crate::map_layout::lemma_camp_cells_bounded(gv, gv.len() as int, i);
            }
            assert(spec_laid_out(mid, player_team, map_width, spec_grid_view(lines@)));
            lemma_laid_out_agree(mid, player_team, map_width, spec_grid_view(lines@));
        }
        map.initialize_next_turn(Team::Player);
        proof {
            lemma_turn_keeps_agreement(mid, map, Team::Player);
        }
        map
    }

    /// Records that `winner` won: shows the win banner of the player's or the
    /// enemy's side (none for barbarians), and sends the end of the game to the
    /// other side.
    pub fn set_winner(&mut self, winner: Team)
        requires
            old(self).banner.wf(),
        ensures
            final(self).banner.wf(),
            winner == Team::Player ==> spec_shows(final(self).banner, BANNER_WIN_P1@),
            winner == Team::Enemy ==> spec_shows(final(self).banner, BANNER_WIN_P2@),
            winner == Team::Barbarians ==> final(self).banner == old(self).banner,
            final(self).event_list@ == old(self).event_list@.push(spec_end_game_event(winner, old(self).player_state.team)),
            final(self).winning_team == Some(winner),
            final(self).map_tiles == old(self).map_tiles,
            final(self).map_size == old(self).map_size,
            final(self).objectives == old(self).objectives,
            final(self).player_units == old(self).player_units,
            final(self).enemy_units == old(self).enemy_units,
            final(self).barbarian_units == old(self).barbarian_units,
            final(self).possible_moves == old(self).possible_moves,
            final(self).possible_attacks == old(self).possible_attacks,
            final(self).actual_attacks == old(self).actual_attacks,
            final(self).unit_interface == old(self).unit_interface,
            final(self).choose_unit_interface == old(self).choose_unit_interface,
            final(self).player_state == old(self).player_state,
            final(self).event_list_index == old(self).event_list_index,
            final(self).damage_reports == old(self).damage_reports,
    {
        match winner {
            Team::Player => self.banner.show(BANNER_WIN_P1),
            Team::Enemy => self.banner.show(BANNER_WIN_P2),
            Team::Barbarians => {},
        }
        let id = winner.as_client(&self.player_state).to_id();
        self.event_list.push(Event::create(EVENT_END_GAME, id, (0, 0), (0, 0), 0));
        self.winning_team = Some(winner);
    }
}

/// Applies `event` to the game (see `spec_event_applied`); an event whose
/// positions have no tiles is refused. An attack records where to show the
/// damage it dealt.
pub fn apply_event(game_map: &mut GameMap, event: Event) -> (r: Result<(), String>)
    requires
        old(game_map).wf(),
        event.action == EVENT_END_TURN ==> old(game_map).objectives.p1_castle_turns < u32::MAX
            && old(game_map).objectives.p2_castle_turns < u32::MAX,
    ensures
        final(game_map).wf(),
        !(old(game_map).map_tiles@.contains_key((event.from_pos.1, event.from_pos.0))
            && old(game_map).map_tiles@.contains_key((event.to_pos.1, event.to_pos.0)))
            ==> spec_is_err(r, "Could not obtain 'from' tile"@) && spec_unchanged(*old(game_map), *final(game_map)),
        old(game_map).map_tiles@.contains_key((event.from_pos.1, event.from_pos.0))
            && old(game_map).map_tiles@.contains_key((event.to_pos.1, event.to_pos.0))
            ==> spec_event_applied(*old(game_map), *final(game_map), event, r),
    final(game_map).objectives.p1_castle_turns <= old(game_map).objectives.p1_castle_turns + 1,
    final(game_map).objectives.p2_castle_turns <= old(game_map).objectives.p2_castle_turns + 1,
    old(game_map).event_list@.is_prefix_of(final(game_map).event_list@),
{
    let from_tile = (event.from_pos.1, event.from_pos.0);
    let to_tile = (event.to_pos.1, event.to_pos.0);
    let from_team = match game_map.map_tiles.get(from_tile) {
        Some(t) => t.contained_unit_team,
        None => {
            return Err("Could not obtain 'from' tile".to_string());
        },
    };
    let to_team = match game_map.map_tiles.get(to_tile) {
        Some(t) => t.contained_unit_team,
        None => {
            return Err("Could not obtain 'from' tile".to_string());
        },
    };
    if event.action == EVENT_MOVE {
        let t = match from_team {
            Some(t) => t,
            None => {
                return Err("No specified unit on event 'from' tile".to_string());
            },
        };
        if from_tile.0 == to_tile.0 && from_tile.1 == to_tile.1 {
            match t {
                Team::Player => mark_moved(&mut game_map.player_units, event.from_pos),
                Team::Enemy => mark_moved(&mut game_map.enemy_units, event.from_pos),
                Team::Barbarians => mark_moved(&mut game_map.barbarian_units, event.from_pos),
            }
            return Ok(());
        }
        if to_team.is_some() {
            return Err("Could not apply event: 'to' tile already contains another unit".to_string());
        }
        let moved = match t {
            Team::Player => move_in(&mut game_map.player_units, event.from_pos, event.to_pos),
            Team::Enemy => move_in(&mut game_map.enemy_units, event.from_pos, event.to_pos),
            Team::Barbarians => move_in(&mut game_map.barbarian_units, event.from_pos, event.to_pos),
        };
        match moved {
            Err(e) => {
                return Err(e);
            },
            Ok(()) => {},
        }
        game_map.map_tiles.update_team(from_tile, None);
        game_map.map_tiles.update_team(to_tile, from_team);
        Ok(())
    } else if event.action == EVENT_ATTACK {
        let attacked = match (from_team, to_team) {
            (Some(Team::Player), Some(Team::Enemy)) => attack_in(&mut game_map.player_units, &mut game_map.enemy_units, event.from_pos, event.to_pos, event.value),
            (Some(Team::Player), Some(Team::Barbarians)) => attack_in(&mut game_map.player_units, &mut game_map.barbarian_units, event.from_pos, event.to_pos, event.value),
            (Some(Team::Enemy), Some(Team::Player)) => attack_in(&mut game_map.enemy_units, &mut game_map.player_units, event.from_pos, event.to_pos, event.value),
            (Some(Team::Enemy), Some(Team::Barbarians)) => attack_in(&mut game_map.enemy_units, &mut game_map.barbarian_units, event.from_pos, event.to_pos, event.value),
            (Some(Team::Barbarians), Some(Team::Player)) => attack_in(&mut game_map.barbarian_units, &mut game_map.player_units, event.from_pos, event.to_pos, event.value),
            (Some(Team::Barbarians), Some(Team::Enemy)) => attack_in(&mut game_map.barbarian_units, &mut game_map.enemy_units, event.from_pos, event.to_pos, event.value),
            _ => {
                return Err("No specified attacking unit on event 'from' tile".to_string());
            },
        };
        match attacked {
            Ok(report) => {
                game_map.damage_reports.push(report);
                Ok(())
            },
            Err(e) => Err(e),
        }
    } else if event.action == EVENT_END_TURN {
        let next_team = game_map.player_state.advance_turn();
        game_map.initialize_next_turn(next_team);
        Ok(())
    } else if event.action == EVENT_SPAWN_UNIT {
        let unit_team = if event.from_self { Team::Player } else { Team::Enemy };
        let (x, y) = event.to_pos;
        game_map.map_tiles.update_team((y, x), Some(unit_team));
        let c = if event.value == EVENT_UNIT_MELEE { 'l' } else if event.value == EVENT_UNIT_ARCHER { 'r' } else { 'm' };
        let mut new_unit = unit_for(unit_team, c, (x, y));
        new_unit.has_moved = true;
        new_unit.has_attacked = true;
        match unit_team {
            Team::Player => game_map.player_units.insert(new_unit),
            Team::Enemy => game_map.enemy_units.insert(new_unit),
            Team::Barbarians => game_map.barbarian_units.insert(new_unit),
        }
        Ok(())
    } else if event.action == EVENT_END_GAME {
        if game_map.winning_team.is_none() {
            let team = match Team::from_id(event.id) {
                Ok(t) => t,
                Err(e) => {
                    return Err(e);
                },
            };
            let w = team.as_client(&game_map.player_state);
            game_map.set_winner(w);
        }
        Ok(())
    } else {
        Ok(())
    }
}


/// A unit moves once a turn: after a move of the unit at `a` to `b` has been
/// applied, moving it on from `b` to another tile is refused.
pub proof fn lemma_unit_moves_once(g0: GameMap, g1: GameMap, g2: GameMap, e1: Event, e2: Event, r2: Result<(), String>)
    requires
        e1.action == EVENT_MOVE,
        e2.action == EVENT_MOVE,
        e2.from_pos == e1.to_pos,
        e1.from_pos != e1.to_pos,
        e2.from_pos != e2.to_pos,
        g0.map_tiles@.contains_key((e1.from_pos.1, e1.from_pos.0)),
        g0.map_tiles@.contains_key((e1.to_pos.1, e1.to_pos.0)),
        spec_event_applied(g0, g1, e1, Ok(())),
        g1.map_tiles@.contains_key((e2.to_pos.1, e2.to_pos.0)),
        spec_event_applied(g1, g2, e2, r2),
    ensures
        r2 is Err,
{
    let from_tile = (e1.from_pos.1, e1.from_pos.0);
    let to_tile = (e1.to_pos.1, e1.to_pos.0);
    let t = g0.map_tiles@[from_tile].contained_unit_team->0;
    assert(from_tile != to_tile);
    assert(g1.map_tiles@[to_tile].contained_unit_team == Some(t));
    assert(spec_team_units(g1, t).contains_key(e1.to_pos));
    assert(spec_team_units(g1, t)[e1.to_pos].has_moved);
}

/// The positions where some team has a unit with no health left.
pub open spec fn spec_dead(g: GameMap) -> Set<(u32, u32)> {
    Set::new(|p: (u32, u32)|
        (g.player_units@.contains_key(p) && g.player_units@[p].hp == 0)
        || (g.enemy_units@.contains_key(p) && g.enemy_units@[p].hp == 0)
        || (g.barbarian_units@.contains_key(p) && g.barbarian_units@[p].hp == 0))
}

/// The tiles of `tiles`, with those under the unit positions of `dead` freed.
pub open spec fn spec_freed(tiles: Map<(u32, u32), Tile>, dead: Set<(u32, u32)>) -> Map<(u32, u32), Tile> {
    Map::new(
        |k: (u32, u32)| tiles.contains_key(k),
        |k: (u32, u32)| if dead.contains((k.1, k.0)) { Tile { contained_unit_team: None, ..tiles[k] } } else { tiles[k] },
    )
}

/// Game `before` with the units at the positions of `dead` taken off every
/// team and their tiles freed.
pub open spec fn spec_dead_removed(before: GameMap, after: GameMap, dead: Set<(u32, u32)>) -> bool {
    &&& spec_same_but_board(before, after)
    &&& after.player_units@ == before.player_units@.remove_keys(dead)
    &&& after.enemy_units@ == before.enemy_units@.remove_keys(dead)
    &&& after.barbarian_units@ == before.barbarian_units@.remove_keys(dead)
    &&& after.map_tiles@ == spec_freed(before.map_tiles@, dead)
}

/// Whether applying `event` to `a` succeeds and gives `b`.
#[verifier::opaque]
pub open spec fn spec_step_ok(a: GameMap, b: GameMap, event: Event) -> bool {
    &&& a.map_tiles@.contains_key((event.from_pos.1, event.from_pos.0))
    &&& a.map_tiles@.contains_key((event.to_pos.1, event.to_pos.0))
    &&& spec_event_applied(a, b, event, Ok(()))
}

/// Whether `trace` is the succession of games that applying `events` one after
/// another goes through.
pub open spec fn spec_trace(trace: Seq<GameMap>, events: Seq<Event>) -> bool {
    &&& trace.len() == events.len() + 1
    &&& forall|k: int| 0 <= k < events.len() ==> spec_step_ok(#[trigger] trace[k], trace[k + 1], events[k])
}

/// Whether applying `event` to `a` fails with `e`, leaving `b` the same as `a`.
#[verifier::opaque]
pub open spec fn spec_step_failed(a: GameMap, b: GameMap, event: Event, e: String) -> bool {
    &&& spec_unchanged(a, b)
    &&& if a.map_tiles@.contains_key((event.from_pos.1, event.from_pos.0))
        && a.map_tiles@.contains_key((event.to_pos.1, event.to_pos.0)) {
        spec_event_applied(a, b, event, Err(e))
    } else {
        e@ == "Could not obtain 'from' tile"@
    }
}

/// The events of the list of `g` that have not been applied yet.
pub open spec fn spec_pending(g: GameMap) -> Seq<Event> {
    let start = g.event_list_index as int;
    let n = g.event_list@.len() as int;
    if start < n { g.event_list@.subrange(start, n) } else { Seq::empty() }
}

/// Takes the units at the positions of `dead` off every team and frees their tiles.
fn remove_dead(game_map: &mut GameMap, dead: &Vec<(u32, u32)>)
    ensures
        spec_dead_removed(*old(game_map), *final(game_map), dead@.to_set()),
        final(game_map).objectives == old(game_map).objectives,
{
    let mut k: usize = 0;
    assert(dead@.take(0).to_set() =~= Set::<(u32, u32)>::empty());
    assert(old(game_map).player_units@.remove_keys(Set::empty()) =~= old(game_map).player_units@);
    assert(old(game_map).enemy_units@.remove_keys(Set::empty()) =~= old(game_map).enemy_units@);
    assert(old(game_map).barbarian_units@.remove_keys(Set::empty()) =~= old(game_map).barbarian_units@);
    assert(spec_freed(old(game_map).map_tiles@, Set::empty()) =~= old(game_map).map_tiles@);
    while k < dead.len()
        invariant
            k <= dead@.len(),
            spec_dead_removed(*old(game_map), *game_map, dead@.take(k as int).to_set()),
            game_map.objectives == old(game_map).objectives,
        decreases dead@.len() - k,
    {
        let pos = dead[k];
        let ghost before = *game_map;
        let _ = game_map.player_units.remove(pos);
        let _ = game_map.enemy_units.remove(pos);
        let _ = game_map.barbarian_units.remove(pos);
        game_map.map_tiles.update_team((pos.1, pos.0), None);
        proof {
            let s0 = dead@.take(k as int).to_set();
            assert(dead@.take(k + 1) =~= dead@.take(k as int) + seq![pos]);
            Seq::lemma_to_set_insert_commutes(dead@.take(k as int), pos);
            let s1 = s0.insert(pos);
            assert(dead@.take(k + 1).to_set() == s1);
            assert(game_map.player_units@ =~= old(game_map).player_units@.remove_keys(s1));
            assert(game_map.enemy_units@ =~= old(game_map).enemy_units@.remove_keys(s1));
            assert(game_map.barbarian_units@ =~= old(game_map).barbarian_units@.remove_keys(s1));
            assert(game_map.map_tiles@ =~= spec_freed(old(game_map).map_tiles@, s1));
        }
        k += 1;
    }
    assert(dead@.take(k as int) =~= dead@);
}

/// Whether the pending events of `game_map` can be applied (see
/// `apply_events`): the game is well formed and its capture counters have
/// room for a turn per listed event.
pub fn events_can_apply(game_map: &GameMap) -> (b: bool)
    ensures
        b == (game_map.wf()
            && game_map.objectives.p1_castle_turns + game_map.event_list@.len() < u32::MAX
            && game_map.objectives.p2_castle_turns + game_map.event_list@.len() < u32::MAX),
{
    let n = game_map.event_list.len();
    if n >= 0xffff_ffffusize {
        return false;
    }
    let n32 = n as u32;
    if game_map.objectives.p1_castle_turns >= 0xffff_ffffu32 - n32 || game_map.objectives.p2_castle_turns >= 0xffff_ffffu32 - n32 {
        return false;
    }
    game_map.is_wf()
}

/// Applies, in order, the events of the list that have not been applied yet
/// and returns them; then takes every unit with no health left off the map.
/// On the first event that fails, the error is returned and the events
/// after it are left unapplied, and so are the removals.
pub fn apply_events(game_map: &mut GameMap) -> (r: Result<Vec<Event>, String>)
    requires
        old(game_map).wf(),
        old(game_map).objectives.p1_castle_turns + old(game_map).event_list@.len() < u32::MAX,
        old(game_map).objectives.p2_castle_turns + old(game_map).event_list@.len() < u32::MAX,
    ensures
        final(game_map).wf(),
        ({
            let start = old(game_map).event_list_index as int;
            let n = old(game_map).event_list@.len() as int;
            let pending = spec_pending(*old(game_map));
            match r {
                Ok(v) => {
                    &&& v@ == pending
                    &&& exists|trace: Seq<GameMap>| {
                        &&& #[trigger] spec_trace(trace, pending)
                        &&& trace[0] == *old(game_map)
                        &&& spec_dead_removed(
                            GameMap { event_list_index: n as usize, ..trace.last() },
                            *final(game_map),
                            spec_dead(trace.last()),
                        )
                    }
                },
                Err(e) => exists|trace: Seq<GameMap>, k: int| {
                    &&& 0 <= k < pending.len()
                    &&& #[trigger] spec_trace(trace, pending.take(k))
                    &&& trace[0] == *old(game_map)
                    &&& spec_step_failed(trace.last(), *final(game_map), pending[k], e)
                },
            }
        }),
{
    let ghost g0 = *game_map;
    let start = game_map.event_list_index;
    let new_index = game_map.event_list.len();
    let ghost pending = spec_pending(g0);
    let mut ret: Vec<Event> = Vec::new();
    let mut i: usize = start;
    let ghost mut trace: Seq<GameMap> = seq![g0];
    while i < new_index
        invariant
            g0 == *old(game_map),
            g0.event_list@.len() == new_index,
            start == g0.event_list_index,
            pending == spec_pending(g0),
            start <= i <= new_index || (start > new_index && i == start),
            game_map.wf(),
            game_map.objectives.p1_castle_turns <= g0.objectives.p1_castle_turns + (i - start),
            game_map.objectives.p2_castle_turns <= g0.objectives.p2_castle_turns + (i - start),
            g0.objectives.p1_castle_turns + g0.event_list@.len() < u32::MAX,
            g0.objectives.p2_castle_turns + g0.event_list@.len() < u32::MAX,
            g0.event_list@.is_prefix_of(game_map.event_list@),
            start <= i ==> ret@ == pending.take(i - start),
            start <= i ==> spec_trace(trace, pending.take(i - start)),
            trace[0] == g0,
            trace.last() == *game_map,
        decreases new_index - i,
    {
        let event = game_map.event_list[i];
        proof {
            assert(g0.event_list@[i as int] == game_map.event_list@[i as int]);
            assert(pending[i - start] == event);
        }
        let ghost before = *game_map;
        match apply_event(game_map, event) {
            Ok(()) => {},
            Err(e) => {
                proof {
                    assert(spec_step_failed(before, *game_map, event, e)) by {
                        reveal(spec_step_failed);
                    }
                    assert(spec_trace(trace, pending.take(i - start)));
                    let k = i - start;
                    assert(0 <= k < pending.len());
                    assert(pending[k] == event);
                    assert({
                        &&& 0 <= k < pending.len()
                        &&& spec_trace(trace, pending.take(k))
                        &&& trace[0] == *old(game_map)
                        &&& spec_step_failed(trace.last(), *game_map, pending[k], e)
                    });
                }
                return Err(e);
            },
        }
        ret.push(event);
        proof {
            assert(spec_step_ok(before, *game_map, event)) by {
                reveal(spec_step_ok);
            }
            let t2 = trace.push(*game_map);
            assert(pending.take(i - start + 1) =~= pending.take(i - start).push(event));
            assert forall|k: int| 0 <= k < pending.take(i - start + 1).len() implies spec_step_ok(#[trigger] t2[k], t2[k + 1], pending.take(i - start + 1)[k]) by {
                if k < i - start {
                    assert(t2[k] == trace[k]);
                    assert(t2[k + 1] == trace[k + 1]);
                    assert(pending.take(i - start + 1)[k] == pending.take(i - start)[k]);
                } else {
                    assert(t2[k] == before);
                }
            }
            trace = t2;
            assert(ret@ =~= pending.take(i - start + 1));
        }
        i += 1;
    }
    let ghost last = *game_map;
    game_map.event_list_index = new_index;
    let ghost indexed = *game_map;
    let mut dead: Vec<(u32, u32)> = Vec::new();
    let dp = game_map.player_units.dead_positions();
    let de = game_map.enemy_units.dead_positions();
    let db = game_map.barbarian_units.dead_positions();
    let mut k: usize = 0;
    while k < dp.len()
        invariant
            k <= dp@.len(),
            dead@ == dp@.take(k as int),
        decreases dp@.len() - k,
    {
        dead.push(dp[k]);
        assert(dp@.take(k + 1) =~= dp@.take(k as int).push(dp@[k as int]));
        k += 1;
    }
    let mut k: usize = 0;
    while k < de.len()
        invariant
            k <= de@.len(),
            dead@ == dp@ + de@.take(k as int),
        decreases de@.len() - k,
    {
        dead.push(de[k]);
        assert(de@.take(k + 1) =~= de@.take(k as int).push(de@[k as int]));
        k += 1;
    }
    let mut k: usize = 0;
    while k < db.len()
        invariant
            k <= db@.len(),
            dead@ == dp@ + de@ + db@.take(k as int),
        decreases db@.len() - k,
    {
        dead.push(db[k]);
        assert(db@.take(k + 1) =~= db@.take(k as int).push(db@[k as int]));
        k += 1;
    }
    proof {
        assert(dp@.take(dp@.len() as int) =~= dp@);
        assert(de@.take(de@.len() as int) =~= de@);
        assert(db@.take(db@.len() as int) =~= db@);
        assert(dead@.to_set() =~= spec_dead(last)) by {
            assert forall|p: (u32, u32)| dead@.to_set().contains(p) <==> spec_dead(last).contains(p) by {
                if dp@.contains(p) {
                    let j = choose|j: int| 0 <= j < dp@.len() && dp@[j] == p;
                    assert(dead@[j] == p);
                }
                if de@.contains(p) {
                    let j = choose|j: int| 0 <= j < de@.len() && de@[j] == p;
                    assert(dead@[dp@.len() + j] == p);
                }
                if db@.contains(p) {
                    let j = choose|j: int| 0 <= j < db@.len() && db@[j] == p;
                    assert(dead@[dp@.len() + de@.len() + j] == p);
                }
                if dead@.contains(p) {
                    let j = choose|j: int| 0 <= j < dead@.len() && dead@[j] == p;
                    if j < dp@.len() {
                        assert(dp@[j] == p);
                    } else if j < dp@.len() + de@.len() {
                        assert(de@[j - dp@.len()] == p);
                    } else {
                        assert(db@[j - dp@.len() - de@.len()] == p);
                    }
                }
            }
        }
    }
    remove_dead(game_map, &dead);
    proof {
        if start > new_index {
            assert(pending.take(0) =~= pending);
        } else {
            assert(pending.take(i - start) =~= pending);
        }
        assert(indexed == GameMap { event_list_index: new_index, ..trace.last() });
        assert(spec_trace(trace, pending));
        assert(ret@ == pending);
        assert(spec_dead_removed(
            GameMap { event_list_index: new_index, ..trace.last() },
            *game_map,
            spec_dead(trace.last()),
        ));
    }
    Ok(ret)
}


/// Whether some unit of `list` stands at `p`.
pub open spec fn spec_list_has(list: Seq<(char, (u32, u32))>, p: (u32, u32)) -> bool {
    exists|i: int| 0 <= i < list.len() && (#[trigger] list[i]).1 == p
}

/// Whether some unit of `list` stands at `p`, looking from the end.
spec fn spec_list_has_rec(list: Seq<(char, (u32, u32))>, p: (u32, u32)) -> bool
    decreases list.len(),
{
    if list.len() == 0 { false } else { list.last().1 == p || spec_list_has_rec(list.drop_last(), p) }
}

/// Whether no unit of `a` stands where a unit of `b` stands.
spec fn spec_lists_apart(a: Seq<(char, (u32, u32))>, b: Seq<(char, (u32, u32))>) -> bool
    decreases a.len(),
{
    if a.len() == 0 { true } else { !spec_list_has_rec(b, a.last().1) && spec_lists_apart(a.drop_last(), b) }
}

proof fn lemma_list_has_rec(list: Seq<(char, (u32, u32))>, p: (u32, u32))
    ensures
        spec_list_has_rec(list, p) == spec_list_has(list, p),
    decreases list.len(),
{
    if list.len() > 0 {
        let pre = list.drop_last();
        lemma_list_has_rec(pre, p);
        if spec_list_has(pre, p) {
            let i = choose|i: int| 0 <= i < pre.len() && (#[trigger] pre[i]).1 == p;
            assert(list[i] == pre[i]);
        }
        if spec_list_has(list, p) && list.last().1 != p {
            let i = choose|i: int| 0 <= i < list.len() && (#[trigger] list[i]).1 == p;
            assert(pre[i] == list[i]);
        }
        if list.last().1 == p {
            assert(list[list.len() - 1].1 == p);
        }
    }
}

proof fn lemma_lists_apart(a: Seq<(char, (u32, u32))>, b: Seq<(char, (u32, u32))>, p: (u32, u32))
    requires
        spec_lists_apart(a, b),
        spec_list_has(a, p),
    ensures
        !spec_list_has(b, p),
    decreases a.len(),
{
    lemma_list_has_rec(b, p);
    let pre = a.drop_last();
    if a.last().1 != p {
        let i = choose|i: int| 0 <= i < a.len() && (#[trigger] a[i]).1 == p;
        assert(i < a.len() - 1);
        assert(pre[i] == a[i]);
        lemma_lists_apart(pre, b, p);
    }
}

/// The units placed for `team` from `list` on no units: one at each
/// position of the list, kept under its position and of that team.
proof fn lemma_placed(team: Team, list: Seq<(char, (u32, u32))>)
    ensures
        forall|p: (u32, u32)| #[trigger] spec_placed_units(Map::empty(), team, list).contains_key(p) <==> spec_list_has(list, p),
        forall|p: (u32, u32)| #[trigger] spec_placed_units(Map::empty(), team, list).contains_key(p) ==> {
            let u = spec_placed_units(Map::empty(), team, list)[p];
            u.x == p.0 && u.y == p.1 && u.team == team
        },
    decreases list.len(),
{
    if list.len() > 0 {
        let pre = list.drop_last();
        lemma_placed(team, pre);
        assert forall|p: (u32, u32)| spec_list_has(list, p) <==> spec_list_has(pre, p) || list.last().1 == p by {
            if spec_list_has(pre, p) {
                let i = choose|i: int| 0 <= i < pre.len() && (#[trigger] pre[i]).1 == p;
                assert(list[i] == pre[i]);
            }
            if spec_list_has(list, p) && list.last().1 != p {
                let i = choose|i: int| 0 <= i < list.len() && (#[trigger] list[i]).1 == p;
                assert(pre[i] == list[i]);
            }
            if list.last().1 == p {
                assert(list[list.len() - 1].1 == p);
            }
        }
    }
}

/// The tiles of `tiles` marked for the units of `list`: a tile under a unit
/// of the list holds `team`, the others are as they were.
proof fn lemma_marked_tiles(tiles: Map<(u32, u32), Tile>, team: Team, list: Seq<(char, (u32, u32))>)
    ensures
        forall|k: (u32, u32)| #[trigger] spec_marked_tiles(tiles, team, list).contains_key(k)
            <==> tiles.contains_key(k) || spec_list_has(list, (k.1, k.0)),
        forall|k: (u32, u32)| #[trigger] spec_marked_tiles(tiles, team, list).contains_key(k)
            ==> spec_marked_tiles(tiles, team, list)[k].contained_unit_team
                == (if spec_list_has(list, (k.1, k.0)) { Some(team) } else { tiles[k].contained_unit_team }),
    decreases list.len(),
{
    if list.len() > 0 {
        let pre = list.drop_last();
        lemma_marked_tiles(tiles, team, pre);
        assert forall|p: (u32, u32)| spec_list_has(list, p) <==> spec_list_has(pre, p) || list.last().1 == p by {
            if spec_list_has(pre, p) {
                let i = choose|i: int| 0 <= i < pre.len() && (#[trigger] pre[i]).1 == p;
                assert(list[i] == pre[i]);
            }
            if spec_list_has(list, p) && list.last().1 != p {
                let i = choose|i: int| 0 <= i < list.len() && (#[trigger] list[i]).1 == p;
                assert(pre[i] == list[i]);
            }
            if list.last().1 == p {
                assert(list[list.len() - 1].1 == p);
            }
        }
    }
}

/// Whether the units of `g` and the unit marks of its tiles agree: each unit
/// of a side is kept under its own position, belongs to that side and stands
/// on a tile marked as that side; each tile marked as a side has a unit of
/// that side on it.
pub open spec fn spec_units_agree(g: GameMap) -> bool {
    &&& forall|t: Team, p: (u32, u32)| #[trigger] spec_team_units(g, t).contains_key(p) ==> {
        &&& spec_team_units(g, t)[p].x == p.0
        &&& spec_team_units(g, t)[p].y == p.1
        &&& spec_team_units(g, t)[p].team == t
        &&& g.map_tiles@.contains_key((p.1, p.0))
        &&& g.map_tiles@[(p.1, p.0)].contained_unit_team == Some(t)
    }
    &&& forall|k: (u32, u32)| #![trigger g.map_tiles@[k]] g.map_tiles@.contains_key(k) && g.map_tiles@[k].contained_unit_team is Some
        ==> spec_team_units(g, g.map_tiles@[k].contained_unit_team->0).contains_key((k.1, k.0))
}

/// The starting units of the three sides stand on different tiles.
#[verifier::rlimit(100)]
proof fn lemma_start_lists_apart()
    ensures
        spec_lists_apart(spec_p1_units(), spec_p2_units()),
        spec_lists_apart(spec_p2_units(), spec_p1_units()),
        spec_lists_apart(spec_p1_units(), spec_barbarian_units()),
        spec_lists_apart(spec_p2_units(), spec_barbarian_units()),
{
    reveal_with_fuel(spec_lists_apart, 17);
    reveal_with_fuel(spec_list_has_rec, 29);
}

/// The tiles of a grid hold no units.
proof fn lemma_grid_tiles_empty(grid: Seq<Seq<char>>, k: (u32, u32))
    requires
        spec_grid_tiles(grid).contains_key(k),
    ensures
        spec_grid_tiles(grid)[k].contained_unit_team is None,
{
}

/// A game laid out from a map has its units and tile marks agree.
proof fn lemma_laid_out_agree(g: GameMap, player_team: Team, map_width: usize, lines: Seq<Seq<char>>)
    requires
        spec_laid_out(g, player_team, map_width, lines),
    ensures
        spec_units_agree(g),
{
    let grid = spec_letter_grid(player_team, map_width, lines);
    let t0 = spec_grid_tiles(grid);
    let own = spec_own_units(player_team);
    let other = spec_other_units(player_team);
    let barbs = spec_barbarian_units();
    let t1 = spec_marked_tiles(t0, Team::Player, own);
    let t2 = spec_marked_tiles(t1, Team::Enemy, other);
    lemma_marked_tiles(t0, Team::Player, own);
    lemma_marked_tiles(t1, Team::Enemy, other);
    lemma_marked_tiles(t2, Team::Barbarians, barbs);
    lemma_placed(Team::Player, own);
    lemma_placed(Team::Enemy, other);
    lemma_placed(Team::Barbarians, barbs);
    lemma_start_lists_apart();
    if player_team == Team::Player {
        assert(own == spec_p1_units() && other == spec_p2_units());
    } else {
        assert(own == spec_p2_units() && other == spec_p1_units());
    }
    assert(spec_lists_apart(own, other));
    assert(spec_lists_apart(own, barbs));
    assert(spec_lists_apart(other, barbs));
    assert forall|t: Team, p: (u32, u32)| #[trigger] spec_team_units(g, t).contains_key(p) implies {
        &&& spec_team_units(g, t)[p].x == p.0
        &&& spec_team_units(g, t)[p].y == p.1
        &&& spec_team_units(g, t)[p].team == t
        &&& g.map_tiles@.contains_key((p.1, p.0))
        &&& g.map_tiles@[(p.1, p.0)].contained_unit_team == Some(t)
    } by {
        let k = (p.1, p.0);
        assert((k.1, k.0) == p);
        match t {
            Team::Player => {
                assert(g.player_units@.contains_key(p));
                assert(spec_list_has(own, p));
                lemma_lists_apart(own, other, p);
                lemma_lists_apart(own, barbs, p);
                assert(t1.contains_key(k));
                assert(t1[k].contained_unit_team == Some(Team::Player));
                assert(t2.contains_key(k));
                assert(t2[k].contained_unit_team == Some(Team::Player));
                assert(g.map_tiles@.contains_key(k));
                assert(g.map_tiles@[k].contained_unit_team == Some(Team::Player));
            },
            Team::Enemy => {
                assert(g.enemy_units@.contains_key(p));
                assert(spec_list_has(other, p));
                lemma_lists_apart(other, barbs, p);
                assert(t2.contains_key(k));
                assert(t2[k].contained_unit_team == Some(Team::Enemy));
                assert(g.map_tiles@.contains_key(k));
                assert(g.map_tiles@[k].contained_unit_team == Some(Team::Enemy));
            },
            Team::Barbarians => {
                assert(spec_list_has(barbs, p));
                assert(g.map_tiles@.contains_key(k));
                assert(g.map_tiles@[k].contained_unit_team == Some(Team::Barbarians));
            },
        }
    }
    assert forall|k: (u32, u32)| #![trigger g.map_tiles@[k]] g.map_tiles@.contains_key(k) && g.map_tiles@[k].contained_unit_team is Some
        implies spec_team_units(g, g.map_tiles@[k].contained_unit_team->0).contains_key((k.1, k.0)) by {
        let p = (k.1, k.0);
        if !spec_list_has(barbs, p) && !spec_list_has(other, p) && !spec_list_has(own, p) {
            lemma_grid_tiles_empty(grid, k);
        }
    }
}

/// Marks set right against units that already agree with them change nothing.
proof fn lemma_reconcile_agreed(tiles: Map<(u32, u32), Tile>, c: (u32, u32), team: Team, units: Map<(u32, u32), Unit>)
    requires
        forall|p: (u32, u32)| #[trigger] units.contains_key(p) ==> tiles.contains_key((p.1, p.0))
            && tiles[(p.1, p.0)].contained_unit_team == Some(team),
        forall|k: (u32, u32)| #![trigger tiles[k]] tiles.contains_key(k) && tiles[k].contained_unit_team == Some(team)
            ==> units.contains_key((k.1, k.0)),
    ensures
        spec_reconciled(tiles, c, team, units) == tiles,
{
    let r = spec_reconciled(tiles, c, team, units);
    assert forall|k: (u32, u32)| r.contains_key(k) implies r[k] == tiles[k] by {
        if spec_in_block(c, k) {
            let p = (k.1, k.0);
            assert((p.1, p.0) == k);
            if units.contains_key(p) {
                assert(tiles[k].contained_unit_team == Some(team));
            } else {
                assert(tiles[k].contained_unit_team != Some(team));
            }
        }
    }
    assert(r =~= tiles);
}

/// Preparing a turn keeps units and tile marks agreeing.
proof fn lemma_turn_keeps_agreement(before: GameMap, after: GameMap, team: Team)
    requires
        spec_units_agree(before),
        spec_turn_initialized(before, after, team),
    ensures
        spec_units_agree(after),
{
    let t0 = before.map_tiles@;
    assert forall|p: (u32, u32)| #[trigger] before.player_units@.contains_key(p) implies t0.contains_key((p.1, p.0))
        && t0[(p.1, p.0)].contained_unit_team == Some(Team::Player) by {
        assert(spec_team_units(before, Team::Player).contains_key(p));
    }
    assert forall|k: (u32, u32)| #![trigger t0[k]] t0.contains_key(k) && t0[k].contained_unit_team == Some(Team::Player)
        implies before.player_units@.contains_key((k.1, k.0)) by {
        assert(before.map_tiles@[k].contained_unit_team is Some);
    }
    lemma_reconcile_agreed(t0, before.objectives.p1_castle, Team::Player, before.player_units@);
    assert forall|p: (u32, u32)| #[trigger] before.enemy_units@.contains_key(p) implies t0.contains_key((p.1, p.0))
        && t0[(p.1, p.0)].contained_unit_team == Some(Team::Enemy) by {
        assert(spec_team_units(before, Team::Enemy).contains_key(p));
    }
    assert forall|k: (u32, u32)| #![trigger t0[k]] t0.contains_key(k) && t0[k].contained_unit_team == Some(Team::Enemy)
        implies before.enemy_units@.contains_key((k.1, k.0)) by {
        assert(before.map_tiles@[k].contained_unit_team is Some);
    }
    lemma_reconcile_agreed(t0, before.objectives.p2_castle, Team::Enemy, before.enemy_units@);
    assert(after.map_tiles@ == t0);
    assert forall|t: Team, p: (u32, u32)| #[trigger] spec_team_units(after, t).contains_key(p)
        <==> spec_team_units(before, t).contains_key(p) by {}
    assert forall|t: Team, p: (u32, u32)| #[trigger] spec_team_units(after, t).contains_key(p) implies {
        &&& spec_team_units(after, t)[p].x == p.0
        &&& spec_team_units(after, t)[p].y == p.1
        &&& spec_team_units(after, t)[p].team == t
        &&& after.map_tiles@.contains_key((p.1, p.0))
        &&& after.map_tiles@[(p.1, p.0)].contained_unit_team == Some(t)
    } by {
        assert(spec_team_units(before, t).contains_key(p));
    }
    assert forall|k: (u32, u32)| #![trigger after.map_tiles@[k]] after.map_tiles@.contains_key(k)
        && after.map_tiles@[k].contained_unit_team is Some
        implies spec_team_units(after, after.map_tiles@[k].contained_unit_team->0).contains_key((k.1, k.0)) by {
        assert(before.map_tiles@[k] == after.map_tiles@[k]);
        assert(spec_team_units(before, before.map_tiles@[k].contained_unit_team->0).contains_key((k.1, k.0)));
    }
}

/// Who wins when a turn is prepared: the side the turn is for (as this
/// client sees it) if it has held the other side's castle for the capture
/// threshold; otherwise the enemy when the player has no units left, the
/// player when the enemy has none, and nobody new when both have units.
/// A win shows the winner's banner and sends the end of the game.
pub proof fn lemma_turn_winner(before: GameMap, after: GameMap, team: Team)
    requires
        spec_turn_initialized(before, after, team),
    ensures
        ({
            let ct = spec_as_client(team, before.player_state.team);
            let castle = (ct == Team::Player && after.objectives.p2_castle_turns >= 3)
                || (ct == Team::Enemy && after.objectives.p1_castle_turns >= 3);
            &&& castle ==> after.winning_team == Some(ct)
            &&& !castle && before.player_units@.dom().len() == 0 ==> {
                &&& after.winning_team == Some(Team::Enemy)
                &&& spec_shows(after.banner, BANNER_WIN_P2@)
                &&& after.event_list@ == before.event_list@.push(spec_end_game_event(Team::Enemy, before.player_state.team))
            }
            &&& !castle && before.player_units@.dom().len() > 0 && before.enemy_units@.dom().len() == 0 ==> {
                &&& after.winning_team == Some(Team::Player)
                &&& spec_shows(after.banner, BANNER_WIN_P1@)
                &&& after.event_list@ == before.event_list@.push(spec_end_game_event(Team::Player, before.player_state.team))
            }
            &&& !castle && before.player_units@.dom().len() > 0 && before.enemy_units@.dom().len() > 0 ==> {
                &&& after.winning_team == before.winning_team
                &&& after.event_list@ == before.event_list@
            }
        }),
{
}

} // verus!
