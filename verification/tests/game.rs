use castle_quest::barbarian_turn::{barbarians_ready, handle_barbarian_turn};
use castle_quest::codec::{Event, EVENT_ATTACK, EVENT_END_GAME, EVENT_END_TURN, EVENT_ID_BARBARIAN, EVENT_ID_ENEMY, EVENT_ID_PLAYER,
    EVENT_MOVE, EVENT_SPAWN_UNIT, EVENT_UNIT_MELEE};
use castle_quest::enemy_turn::{convert_state_to_action, handle_enemy_turn, plan_is_possible};
use castle_quest::game_map::{apply_event, apply_events, events_can_apply, map_is_playable, p1_units, p2_units, barbarian_units, DamageReport, GameMap};
use castle_quest::player_state::PlayerAction;
use castle_quest::player_turn::{after_attack, end_player_turn, handle_player_turn, player_input_ok, PlayerInput};
use castle_quest::team::Team;
use castle_quest::objective_manager::ObjectiveManager;
use castle_quest::unit::{Unit, UnitKind};
use castle_quest::unit_map::UnitMap;

/// A 64 by 64 map of grass, with the castle '1' in row 50, column 12, the
/// castle '2' in row 12, column 50, and a camp in row 6, column 6. Each line
/// holds a letter at every even position.
fn map_lines() -> Vec<Vec<char>> {
    let mut lines = Vec::new();
    for row in 0..64usize {
        let mut line = Vec::new();
        for col in 0..64usize {
            let c = if row == 50 && col == 12 {
                '1'
            } else if row == 12 && col == 50 {
                '2'
            } else if row == 6 && col == 6 {
                'b'
            } else {
                ' '
            };
            line.push(c);
            line.push(' ');
        }
        lines.push(line);
    }
    lines
}

fn new_game() -> GameMap {
    let lines = map_lines();
    assert!(map_is_playable(Team::Player, 64, &lines));
    GameMap::new(Team::Player, 64, &lines)
}

fn input(tile: (u32, u32)) -> PlayerInput {
    PlayerInput {
        backspace_held: false,
        left_clicked: true,
        right_clicked: false,
        on_end_turn_button: false,
        tile,
        map_x: tile.1 * 32,
        map_y: tile.0 * 32,
        cam_x: 0,
        cam_y: 0,
    }
}

#[test]
fn starting_unit_lists() {
    assert_eq!(p1_units().len(), 16);
    assert_eq!(p2_units().len(), 16);
    assert_eq!(barbarian_units().len(), 28);
}

#[test]
fn a_map_without_the_second_castle_cannot_be_played() {
    let mut lines = map_lines();
    lines[12][100] = ' ';
    assert!(!map_is_playable(Team::Player, 64, &lines));
    // Units would stand off a map of 40 rows.
    assert!(!map_is_playable(Team::Player, 40, &map_lines()));
}

#[test]
fn a_new_game_places_the_units_and_shows_the_first_turn() {
    let g = new_game();
    assert_eq!(g.player_units.len(), 16);
    assert_eq!(g.enemy_units.len(), 16);
    assert_eq!(g.barbarian_units.len(), 28);
    assert_eq!(g.objectives.p1_castle, (12, 50));
    assert_eq!(g.objectives.p2_castle, (50, 12));
    assert_eq!(g.objectives.barbarian_camps, vec![(6, 6)]);
    assert_eq!(g.map_size, (64, 64));
    assert_eq!(g.player_state.current_turn, Team::Player);
    assert_eq!(g.banner.banner_key, "p1_banner".to_string());
    assert!(g.banner.banner_visible);
    assert_eq!(g.winning_team, None);
    let mage = g.get_unit(&(10, 50)).unwrap();
    assert_eq!(mage.team, Team::Player);
    assert_eq!(mage.hp, 10);
    assert_eq!(g.map_tiles.get((50, 10)).unwrap().contained_unit_team, Some(Team::Player));
    let enemy = g.get_unit(&(46, 8)).unwrap();
    assert_eq!(enemy.team, Team::Enemy);
    let barb = g.get_unit(&(17, 38)).unwrap();
    assert_eq!(barb.team, Team::Barbarians);
    assert_eq!(barb.hp, 10);
    assert_eq!(g.get_unit(&(30, 30)).unwrap_err(), "No unit in the specified tile position".to_string());
    assert_eq!(g.get_unit(&(300, 30)).unwrap_err(), "Could not get map tile at unit position".to_string());
}

#[test]
fn the_enemy_side_sees_the_castles_swapped() {
    let lines = map_lines();
    assert!(map_is_playable(Team::Enemy, 64, &lines));
    let g = GameMap::new(Team::Enemy, 64, &lines);
    assert_eq!(g.objectives.p1_castle, (50, 12));
    assert_eq!(g.objectives.p2_castle, (12, 50));
    // The enemy side's own units are those that start by castle '2'.
    assert_eq!(g.get_unit(&(46, 8)).unwrap().team, Team::Player);
    assert_eq!(g.get_unit(&(10, 50)).unwrap().team, Team::Enemy);
}

#[test]
fn a_unit_moves_once_per_turn() {
    let mut g = new_game();
    let ev = Event::create(EVENT_MOVE, EVENT_ID_PLAYER, (10, 50), (11, 50), 0);
    assert_eq!(apply_event(&mut g, ev), Ok(()));
    let moved = g.get_unit(&(11, 50)).unwrap();
    assert!(moved.has_moved);
    assert_eq!((moved.x, moved.y), (11, 50));
    assert!(g.get_unit(&(10, 50)).is_err());
    assert_eq!(g.map_tiles.get((50, 10)).unwrap().contained_unit_team, None);
    assert_eq!(g.map_tiles.get((50, 11)).unwrap().contained_unit_team, Some(Team::Player));
    let again = Event::create(EVENT_MOVE, EVENT_ID_PLAYER, (11, 50), (11, 51), 0);
    assert_eq!(
        apply_event(&mut g, again),
        Err("Could not apply event: selected unit has already been moved in this turn".to_string())
    );
    assert!(g.get_unit(&(11, 50)).is_ok());
}

#[test]
fn moves_are_refused_from_empty_tiles_onto_units_and_off_the_map() {
    let mut g = new_game();
    let empty = Event::create(EVENT_MOVE, EVENT_ID_PLAYER, (30, 30), (31, 30), 0);
    assert_eq!(apply_event(&mut g, empty), Err("No specified unit on event 'from' tile".to_string()));
    let onto = Event::create(EVENT_MOVE, EVENT_ID_PLAYER, (10, 50), (9, 49), 0);
    assert_eq!(
        apply_event(&mut g, onto),
        Err("Could not apply event: 'to' tile already contains another unit".to_string())
    );
    let off = Event::create(EVENT_MOVE, EVENT_ID_PLAYER, (10, 50), (500, 50), 0);
    assert_eq!(apply_event(&mut g, off), Err("Could not obtain 'from' tile".to_string()));
    // A move onto its own tile only marks the unit as moved.
    let stay = Event::create(EVENT_MOVE, EVENT_ID_PLAYER, (10, 50), (10, 50), 0);
    assert_eq!(apply_event(&mut g, stay), Ok(()));
    assert!(g.get_unit(&(10, 50)).unwrap().has_moved);
}

#[test]
fn an_attack_deals_its_damage_and_records_it() {
    let mut g = new_game();
    let ev = Event::create(EVENT_ATTACK, EVENT_ID_PLAYER, (10, 50), (17, 38), 3);
    assert_eq!(apply_event(&mut g, ev), Ok(()));
    let hit = g.get_unit(&(17, 38)).unwrap();
    assert_eq!(hit.hp, 7);
    assert!(hit.is_attacked);
    assert!(g.get_unit(&(10, 50)).unwrap().has_attacked);
    assert_eq!(g.damage_reports, vec![DamageReport { damage: 3, i: 37, j: 17 }]);
    let same_side = Event::create(EVENT_ATTACK, EVENT_ID_PLAYER, (10, 50), (9, 49), 3);
    assert_eq!(apply_event(&mut g, same_side), Err("No specified attacking unit on event 'from' tile".to_string()));
}

#[test]
fn the_end_of_a_turn_passes_it_on() {
    let mut g = new_game();
    assert_eq!(apply_event(&mut g, Event::new(EVENT_END_TURN)), Ok(()));
    assert_eq!(g.player_state.current_turn, Team::Enemy);
    assert_eq!(g.banner.banner_key, "p2_banner".to_string());
    assert_eq!(apply_event(&mut g, Event::new(EVENT_END_TURN)), Ok(()));
    assert_eq!(g.player_state.current_turn, Team::Barbarians);
    assert_eq!(g.banner.banner_key, "b_banner".to_string());
}

#[test]
fn a_spawned_unit_waits_a_turn() {
    let mut g = new_game();
    let ev = Event::create(EVENT_SPAWN_UNIT, EVENT_ID_PLAYER, (0, 0), (20, 20), EVENT_UNIT_MELEE);
    assert_eq!(apply_event(&mut g, ev), Ok(()));
    let u = g.get_unit(&(20, 20)).unwrap();
    assert_eq!(u.team, Team::Player);
    assert_eq!(u.hp, 20);
    assert!(u.has_moved && u.has_attacked);
    assert_eq!(g.player_units.len(), 17);
}

#[test]
fn the_end_of_the_game_names_the_winner_once() {
    let mut g = new_game();
    let bad = Event::create(EVENT_END_GAME, 9, (0, 0), (0, 0), 0);
    assert_eq!(apply_event(&mut g, bad), Err("Invalid team id".to_string()));
    let ev = Event::create(EVENT_END_GAME, EVENT_ID_PLAYER, (0, 0), (0, 0), 0);
    assert_eq!(apply_event(&mut g, ev), Ok(()));
    assert_eq!(g.winning_team, Some(Team::Player));
    assert_eq!(g.banner.banner_key, "p1_win_banner".to_string());
    assert_eq!(g.event_list.len(), 1);
    assert_eq!(g.event_list[0].action, EVENT_END_GAME);
    assert_eq!(g.event_list[0].id, EVENT_ID_PLAYER);
    // Once there is a winner, further ends change nothing.
    assert_eq!(apply_event(&mut g, ev), Ok(()));
    assert_eq!(g.event_list.len(), 1);
}

#[test]
fn pending_events_are_applied_and_the_dead_removed() {
    let mut g = new_game();
    g.event_list.push(Event::create(EVENT_MOVE, EVENT_ID_PLAYER, (10, 50), (11, 50), 0));
    g.event_list.push(Event::create(EVENT_ATTACK, EVENT_ID_PLAYER, (11, 50), (17, 38), 20));
    let applied = apply_events(&mut g).unwrap();
    assert_eq!(applied.len(), 2);
    assert_eq!(g.event_list_index, 2);
    assert!(g.get_unit(&(17, 38)).is_err());
    assert_eq!(g.barbarian_units.len(), 27);
    assert_eq!(g.map_tiles.get((38, 17)).unwrap().contained_unit_team, None);
    // Nothing is pending any more.
    assert_eq!(apply_events(&mut g).unwrap().len(), 0);
}

#[test]
fn a_failed_event_stops_the_rest() {
    let mut g = new_game();
    g.event_list.push(Event::create(EVENT_MOVE, EVENT_ID_PLAYER, (30, 30), (31, 30), 0));
    g.event_list.push(Event::create(EVENT_MOVE, EVENT_ID_PLAYER, (10, 50), (11, 50), 0));
    assert_eq!(apply_events(&mut g).unwrap_err(), "No specified unit on event 'from' tile".to_string());
    assert!(g.get_unit(&(10, 50)).is_ok());
}

#[test]
fn barbarians_wait_for_their_banner_then_act() {
    let mut g = new_game();
    assert_eq!(handle_barbarian_turn(&mut g), Ok(()));
    assert_eq!(g.event_list.len(), 0);
    g.banner.banner_visible = false;
    assert_eq!(handle_barbarian_turn(&mut g), Ok(()));
    assert!(g.event_list.len() >= 1);
}

#[test]
fn barbarians_end_their_turn_when_all_have_moved() {
    let mut g = new_game();
    g.banner.banner_visible = false;
    let positions: Vec<(u32, u32)> = g.barbarian_units.values().iter().map(|u| (u.x, u.y)).collect();
    for p in positions {
        let mut u = g.barbarian_units.get(p).unwrap();
        u.has_moved = true;
        g.barbarian_units.insert(u);
    }
    assert_eq!(handle_barbarian_turn(&mut g), Ok(()));
    assert_eq!(g.event_list.len(), 1);
    assert_eq!(g.event_list[0].action, EVENT_END_TURN);
    assert_eq!(g.event_list[0].id, EVENT_ID_BARBARIAN);
}

#[test]
fn the_player_selects_a_unit_and_ends_the_turn() {
    let mut g = new_game();
    g.banner.banner_visible = false;
    // Matrix indices (row 50, column 10) hold the mage at (10, 50).
    assert_eq!(handle_player_turn(&mut g, &input((50, 10))), Ok(()));
    assert_eq!(g.player_state.current_player_action, PlayerAction::ChoosingUnitAction);
    assert_eq!((g.player_state.active_unit_i, g.player_state.active_unit_j), (50, 10));
    assert!(g.unit_interface.is_some());
    end_player_turn(&mut g);
    assert_eq!(g.player_state.current_player_action, PlayerAction::Default);
    assert_eq!(g.player_state.active_unit_i, -1);
    assert!(g.unit_interface.is_none());
    assert_eq!(g.event_list.len(), 1);
    assert_eq!(g.event_list[0].action, EVENT_END_TURN);
    assert_eq!(g.event_list[0].id, EVENT_ID_PLAYER);
}

#[test]
fn a_click_on_grass_selects_nothing() {
    let mut g = new_game();
    g.banner.banner_visible = false;
    assert_eq!(handle_player_turn(&mut g, &input((30, 30))), Ok(()));
    assert_eq!(g.player_state.current_player_action, PlayerAction::Default);
    assert!(g.unit_interface.is_none());
}

/// A plan for every enemy unit: the places `head` for the first units, and
/// for the others the tiles they stand on.
fn full_plan(g: &GameMap, head: &[(u32, u32)]) -> Vec<(u32, u32)> {
    let units = g.enemy_units.values();
    let mut plan = head.to_vec();
    for u in units.iter().skip(head.len()) {
        plan.push((u.x, u.y));
    }
    plan
}

#[test]
fn enemy_units_go_to_their_planned_places_in_order() {
    let mut g = new_game();
    g.banner.banner_visible = false;
    let first = g.enemy_units.values()[0];
    let second = g.enemy_units.values()[1];
    assert_eq!((first.x, first.y), (46, 8));
    assert_eq!((second.x, second.y), (45, 10));
    // Both plans name (46, 9): the second unit walks from there toward
    // itself and stops at the first free tile beside the walk, (45, 9).
    let plan = full_plan(&g, &[(46, 9), (46, 9)]);
    assert!(plan_is_possible(&g, &plan));
    handle_enemy_turn(&mut g, &plan);
    assert_eq!(g.get_unit(&(46, 9)).unwrap().team, Team::Enemy);
    assert_eq!(g.get_unit(&(45, 9)).unwrap().team, Team::Enemy);
    assert!(g.enemy_units.get((46, 8)).is_none());
    assert!(g.enemy_units.get((45, 10)).is_none());
    assert_eq!(g.enemy_units.len(), 16);
    assert_eq!(g.map_tiles.get((8, 46)).unwrap().contained_unit_team, None);
    assert_eq!(g.event_list.len(), 1);
    assert_eq!(g.event_list[0].action, EVENT_END_TURN);
    assert_eq!(g.event_list[0].id, EVENT_ID_ENEMY);
}

#[test]
fn the_enemy_waits_for_its_banner() {
    let mut g = new_game();
    let plan = full_plan(&g, &[(46, 9)]);
    handle_enemy_turn(&mut g, &plan);
    assert!(g.enemy_units.get((46, 8)).is_some());
    assert_eq!(g.event_list.len(), 0);
}

#[test]
fn an_enemy_unit_strikes_a_neighbour() {
    let mut g = new_game();
    // The enemy melee unit kept first goes beside the player's melee unit at (8, 46).
    let plan = full_plan(&g, &[(8, 47)]);
    convert_state_to_action(&plan, &mut g);
    let hit = g.get_unit(&(8, 46)).unwrap();
    assert_eq!(hit.team, Team::Player);
    assert!(hit.hp >= 15 && hit.hp <= 20);
    // A miss deals no damage, but the strike is still reported.
    assert!(hit.is_attacked);
    assert_eq!(g.damage_reports, vec![DamageReport { damage: 20 - hit.hp, i: 45, j: 8 }]);
    assert_eq!(g.get_unit(&(8, 47)).unwrap().team, Team::Enemy);
}

#[test]
fn a_plan_with_another_number_of_places_than_units_is_refused() {
    let g = new_game();
    let plan: Vec<(u32, u32)> = (0..17).map(|k| (20 + k, 20)).collect();
    assert!(!plan_is_possible(&g, &plan));
    assert!(plan_is_possible(&g, &plan[..16].to_vec()));
    assert!(!plan_is_possible(&g, &plan[..15].to_vec()));
}

#[test]
fn the_preconditions_of_a_turn_are_checked() {
    let mut g = new_game();
    assert!(g.is_wf());
    assert!(events_can_apply(&g));
    assert!(barbarians_ready(&g));
    g.banner.banner_visible = false;
    assert!(player_input_ok(&g, &input((50, 10))));
    // A scroll click with no scroll open cannot be handled.
    g.player_state.current_player_action = PlayerAction::ChoosingUnitAction;
    assert!(!player_input_ok(&g, &input((50, 10))));
    // A banner whose opacity is not a whole number of fade steps is malformed.
    g.banner.current_banner_transparency = 13;
    assert!(!g.is_wf());
    assert!(!events_can_apply(&g));
    // A barbarian on the map's edge column cannot roam.
    let mut b = g.barbarian_units.get((4, 6)).unwrap();
    b.x = 0;
    g.barbarian_units.insert(b);
    assert!(!barbarians_ready(&g));
}

#[test]
fn castle_marks_are_set_right_both_ways() {
    let mut g = new_game();
    let (cx, cy) = g.objectives.p1_castle;
    // Forget every mark around the player's castle, then mark one empty tile.
    let mut empty = None;
    for i in cy - 1..=cy + 1 {
        for j in cx - 1..=cx + 1 {
            g.map_tiles.update_team((i, j), None);
            if !g.player_units.contains_key((j, i)) && empty.is_none() {
                empty = Some((i, j));
            }
        }
    }
    // A player unit beside the castle whose tile does not show it.
    g.player_units.insert(camp_unit(cx - 1, cy));
    let stray = empty.expect("a free tile beside the castle");
    g.map_tiles.update_team(stray, Some(Team::Player));
    let units_near = (cy - 1..=cy + 1)
        .flat_map(|i| (cx - 1..=cx + 1).map(move |j| (j, i)))
        .filter(|p| g.player_units.contains_key(*p))
        .count();
    assert!(units_near > 0);
    g.correct_map_errors();
    for i in cy - 1..=cy + 1 {
        for j in cx - 1..=cx + 1 {
            let marked = g.map_tiles.get((i, j)).unwrap().contained_unit_team == Some(Team::Player);
            assert_eq!(marked, g.player_units.contains_key((j, i)));
        }
    }
}

fn camp_unit(x: u32, y: u32) -> Unit {
    Unit::new(x, y, Team::Player, 20, 2, 1, 95, 1, 5, UnitKind::Melee, false)
}

#[test]
fn a_camp_gets_a_holder_and_counts_consecutive_turns() {
    let mut o = ObjectiveManager::new((20, 20), (40, 40), vec![(6, 6), (10, 10)]);
    let mut on_first = UnitMap::new();
    on_first.insert(camp_unit(7, 7));
    o.check_objectives(Team::Player, &on_first);
    // The first team on a camp becomes its holder.
    assert_eq!(o.barbarian_camps_teams.get((6, 6)), Some(Some(Team::Player)));
    assert_eq!(o.barbarian_camps_turns.get((6, 6)), Some(1));
    assert_eq!(o.barbarian_camps_teams.get((10, 10)), Some(None));
    assert_eq!(o.barbarian_camps_turns.get((10, 10)), Some(0));
    // A held camp keeps its count while its holder is away.
    o.check_objectives(Team::Player, &UnitMap::new());
    assert_eq!(o.barbarian_camps_turns.get((6, 6)), Some(1));
    // A camp without a holder counts consecutive turns only.
    let mut o2 = ObjectiveManager::new((20, 20), (40, 40), vec![(6, 6)]);
    o2.barbarian_camps_turns.insert((6, 6), 2);
    o2.check_objectives(Team::Player, &UnitMap::new());
    assert_eq!(o2.barbarian_camps_turns.get((6, 6)), Some(0));
    // Three turns on a camp capture it.
    o.check_objectives(Team::Player, &on_first);
    o.check_objectives(Team::Player, &on_first);
    assert_eq!(o.barbarian_camps, vec![(10, 10)]);
    assert_eq!(o.barbarian_camps_turns.get((6, 6)), None);
    assert_eq!(o.barbarian_camps_teams.get((6, 6)), None);
}

#[test]
fn only_an_attacker_needs_a_damage_range() {
    let mut g = new_game();
    g.banner.banner_visible = false;
    let mut u = g.player_units.values()[0];
    u.min_damage = u.max_damage + 1;
    g.player_units.insert(u);
    // A frame that attacks nothing can be handled.
    assert!(player_input_ok(&g, &input((30, 30))));
    // An attack by that unit cannot.
    g.player_state.current_player_action = PlayerAction::AttackingUnit;
    g.player_state.active_unit_i = u.y as i32;
    g.player_state.active_unit_j = u.x as i32;
    g.actual_attacks = vec![(30, 30)];
    assert!(!player_input_ok(&g, &input((30, 30))));
    // Nor is a click beside the attacks an attack.
    assert!(player_input_ok(&g, &input((31, 31))));
}

#[test]
fn a_kill_converts_on_a_roll_under_45() {
    assert_eq!(after_attack(5, 5, 0), PlayerAction::ChoosePrimer);
    assert_eq!(after_attack(5, 9, 44), PlayerAction::ChoosePrimer);
    assert_eq!(after_attack(5, 5, 45), PlayerAction::Default);
    assert_eq!(after_attack(5, 5, 99), PlayerAction::Default);
    assert_eq!(after_attack(6, 5, 0), PlayerAction::Default);
    assert_eq!(after_attack(20, 0, 0), PlayerAction::Default);
}

#[test]
fn a_barbarian_attacks_the_first_unit_from_the_first_tile() {
    let mut g = new_game();
    g.banner.banner_visible = false;
    let units = g.barbarian_units.values().clone();
    let b = units[0];
    for u in units.iter().skip(1) {
        let mut m = *u;
        m.has_moved = true;
        g.barbarian_units.insert(m);
    }
    for p in [(b.x + 3, b.y), (b.x, b.y + 3), (b.x + 2, b.y + 2)] {
        g.player_units.insert(Unit::new(p.0, p.1, Team::Player, 20, 2, 1, 95, 1, 5, UnitKind::Melee, false));
        g.map_tiles.update_team((p.1, p.0), Some(Team::Player));
    }
    let moves = b.get_tiles_in_movement_range(&g.map_tiles);
    assert_eq!(moves[0], (b.x, b.y));
    let (mv, targets) = moves
        .iter()
        .map(|m| (*m, b.get_tiles_can_attack_from_pos(*m, &g.map_tiles)))
        .find(|(_, t)| !t.is_empty())
        .expect("a unit in reach");
    assert_eq!(handle_barbarian_turn(&mut g), Ok(()));
    assert_eq!(g.event_list.len(), 2);
    assert_eq!(g.event_list[0].action, EVENT_MOVE);
    assert_eq!((g.event_list[0].from_pos, g.event_list[0].to_pos), ((b.x, b.y), mv));
    assert_eq!(g.event_list[1].action, EVENT_ATTACK);
    assert_eq!((g.event_list[1].from_pos, g.event_list[1].to_pos), (mv, targets[0]));
}

#[test]
fn an_enemy_unit_strikes_the_weakest_and_then_the_first_found() {
    for (hp_right, expect_right) in [(5u32, true), (20u32, true), (25u32, false)] {
        let mut g = new_game();
        // A second player unit to the right of the tile the enemy goes to;
        // the unit at (8, 46) above it has 20 health.
        assert!(g.player_units.get((9, 47)).is_none());
        let mut extra = Unit::new(9, 47, Team::Player, 25, 2, 1, 95, 1, 5, UnitKind::Melee, false);
        extra.hp = hp_right;
        g.player_units.insert(extra);
        g.map_tiles.update_team((47, 9), Some(Team::Player));
        assert_eq!(g.get_unit(&(8, 46)).unwrap().hp, 20);
        let plan = full_plan(&g, &[(8, 47)]);
        convert_state_to_action(&plan, &mut g);
        // The search from (8, 47) finds (9, 47) before (8, 46): on equal
        // health the unit to the right is struck.
        let right = g.player_units.get((9, 47)).map(|u| u.is_attacked).unwrap_or(true);
        let above = g.player_units.get((8, 46)).map(|u| u.is_attacked).unwrap_or(true);
        assert_eq!(right, expect_right);
        assert_eq!(above, !expect_right);
    }
}

#[test]
fn a_new_game_marks_exactly_the_tiles_of_its_units() {
    let g = new_game();
    for (team, units) in [(Team::Player, &g.player_units), (Team::Enemy, &g.enemy_units), (Team::Barbarians, &g.barbarian_units)] {
        for u in units.values() {
            assert_eq!(u.team, team);
            assert_eq!(g.map_tiles.get((u.y, u.x)).unwrap().contained_unit_team, Some(team));
        }
    }
    for row in 0..64u32 {
        for col in 0..64u32 {
            match g.map_tiles.get((row, col)).unwrap().contained_unit_team {
                Some(Team::Player) => assert!(g.player_units.contains_key((col, row))),
                Some(Team::Enemy) => assert!(g.enemy_units.contains_key((col, row))),
                Some(Team::Barbarians) => assert!(g.barbarian_units.contains_key((col, row))),
                None => {},
            }
        }
    }
}
