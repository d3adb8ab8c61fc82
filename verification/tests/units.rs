use castle_quest::distance::get_actual_distance_from_goal;
use castle_quest::distance_map::DistanceMap;
use castle_quest::distance_text::goal_distance_lines;
use castle_quest::map_layout::{lay_out, letter_grid, row_letters, tile_for, tile_letter};
use castle_quest::pathing::{neighbor, search_area, SearchMode};
use castle_quest::population::{crossover_at, mutation_move, generalized_tiles_can_attack, goal_distance_rows, placement_taken, placement_taken_before,
    unit_value_facts, value_lookups_ok, SuccinctUnit};
use castle_quest::team::Team;
use castle_quest::tile::{Structure, Tile};
use castle_quest::tile_map::{PosMap, TileMap};
use castle_quest::unit::{respawn_loc, walk_ends, Unit, UnitKind};
use castle_quest::unit_map::UnitMap;

/// A map of `w` columns and `h` rows of grass; the tile of unit position (x, y) is under (y, x).
fn open_map(w: u32, h: u32) -> TileMap {
    let mut m: TileMap = PosMap::new();
    for y in 0..h {
        for x in 0..w {
            m.insert((y, x), Tile::new(y, x, true, true, None, None));
        }
    }
    m
}

fn set_tile(m: &mut TileMap, pos: (u32, u32), trav: bool, through: bool) {
    m.insert((pos.1, pos.0), Tile::new(pos.1, pos.0, trav, through, None, None));
}

fn melee(x: u32, y: u32, team: Team) -> Unit {
    Unit::new(x, y, team, 20, 2, 1, 95, 1, 5, UnitKind::Melee, false)
}

fn sorted(mut v: Vec<(u32, u32)>) -> Vec<(u32, u32)> {
    v.sort();
    v
}

#[test]
fn neighbours_stay_on_the_map() {
    assert_eq!(neighbor((0, 0), 0), None);
    assert_eq!(neighbor((0, 0), 1), Some((1, 0)));
    assert_eq!(neighbor((0, 0), 2), None);
    assert_eq!(neighbor((0, 0), 3), Some((0, 1)));
    assert_eq!(neighbor((63, 63), 1), None);
    assert_eq!(neighbor((63, 63), 3), None);
}

#[test]
fn movement_range_is_a_diamond_on_open_ground() {
    let m = open_map(5, 5);
    let area = search_area(&m, (2, 2), 1, SearchMode::Movement);
    assert_eq!(area[0], (2, 2));
    assert_eq!(sorted(area), vec![(1, 2), (2, 1), (2, 2), (2, 3), (3, 2)]);
    let area2 = search_area(&m, (2, 2), 2, SearchMode::Movement);
    assert_eq!(area2.len(), 13);
}

#[test]
fn movement_goes_around_walls_and_units() {
    let mut m = open_map(5, 5);
    set_tile(&mut m, (1, 0), false, true);
    m.update_team((2, 0), Some(Team::Enemy));
    let u = melee(0, 0, Team::Player);
    let tiles = u.get_tiles_in_movement_range(&m);
    assert_eq!(tiles[0], (0, 0));
    assert_eq!(sorted(tiles), vec![(0, 0), (0, 1), (1, 1)]);
}

#[test]
fn attacks_reach_over_rivers_but_not_mountains() {
    let mut m = open_map(5, 1);
    set_tile(&mut m, (1, 0), false, true);
    set_tile(&mut m, (3, 0), false, false);
    m.update_team((0, 2), Some(Team::Enemy));
    m.update_team((0, 4), Some(Team::Enemy));
    let archer = Unit::new(0, 0, Team::Player, 15, 5, 4, 85, 3, 7, UnitKind::Archer, true);
    assert_eq!(sorted(archer.get_tiles_in_attack_range(&m)), vec![(1, 0), (2, 0)]);
    assert_eq!(archer.get_tiles_can_attack(&m), vec![(2, 0)]);
    assert_eq!(archer.get_tiles_can_attack_from_pos((4, 0), &m), Vec::<(u32, u32)>::new());
}

#[test]
fn scouts_are_harder_to_hit() {
    let a = Unit::new(0, 0, Team::Player, 20, 7, 1, 95, 1, 5, UnitKind::Melee, false);
    let scout = Unit::new(1, 0, Team::Enemy, 9, 9, 2, 100, 4, 4, UnitKind::Scout, false);
    assert_eq!(a.hit_threshold(&scout), 75);
    assert_eq!(a.hit_threshold(&a), 95);
    assert_eq!(a.damage_for_rolls(&scout, 74, 3), 3);
    assert_eq!(a.damage_for_rolls(&scout, 75, 3), 0);
    let blind = Unit::new(0, 0, Team::Player, 20, 7, 1, 10, 1, 5, UnitKind::Melee, false);
    assert_eq!(blind.hit_threshold(&scout), 0);
    for _ in 0..20 {
        assert_eq!(blind.get_attack_damage(&scout), 0);
        let d = a.get_attack_damage(&scout);
        assert!(d == 0 || (1..=5).contains(&d));
    }
}

#[test]
fn guards_take_half_damage_from_range() {
    let archer = Unit::new(0, 0, Team::Player, 15, 5, 4, 85, 3, 7, UnitKind::Archer, true);
    let knight = melee(0, 0, Team::Player);
    let mut guard = Unit::new(1, 1, Team::Enemy, 25, 4, 1, 90, 1, 5, UnitKind::Guard, false);
    guard.receive_damage(7, &archer);
    assert_eq!(guard.hp, 22);
    assert!(guard.is_attacked);
    guard.receive_damage(7, &knight);
    assert_eq!(guard.hp, 15);
    guard.receive_damage(1, &archer);
    assert_eq!(guard.hp, 14);
    guard.receive_damage(100, &knight);
    assert_eq!(guard.hp, 0);
}

#[test]
fn units_move_and_get_a_new_turn() {
    let mut u = melee(3, 4, Team::Player);
    assert_eq!((u.starting_x, u.starting_y), (3, 4));
    assert_eq!(u.max_hp, 20);
    u.has_moved = true;
    u.has_attacked = true;
    u.update_pos(5, 6);
    assert_eq!((u.x, u.y), (5, 6));
    u.next_turn();
    assert!(!u.has_moved && !u.has_attacked);
}

#[test]
fn respawn_walks_to_a_free_tile() {
    let mut m = open_map(10, 10);
    assert_eq!(respawn_loc((0, 9), &m, (5, 5)), (5, 5));
    m.update_team((5, 5), Some(Team::Player));
    let r = respawn_loc((0, 9), &m, (5, 5));
    assert_eq!(r, (4, 5));
    let u = melee(0, 9, Team::Player);
    assert_eq!(u.respawn_loc(&m, (5, 5)), (4, 5));
    assert_eq!(u.get_closest_move((5, 5), &m), (4, 5));
}

#[test]
fn unit_map_keeps_one_unit_per_position() {
    let mut um = UnitMap::new();
    um.insert(melee(1, 1, Team::Player));
    um.insert(melee(2, 2, Team::Player));
    let mut dead = melee(3, 3, Team::Player);
    dead.hp = 0;
    um.insert(dead);
    assert_eq!(um.len(), 3);
    let mut moved = melee(1, 1, Team::Player);
    moved.has_moved = true;
    um.insert(moved);
    assert_eq!(um.len(), 3);
    assert!(um.get((1, 1)).unwrap().has_moved);
    assert_eq!(um.dead_positions(), vec![(3, 3)]);
    let first = um.find_unmoved().unwrap();
    assert!(!first.has_moved);
    um.next_turn_all();
    assert!(!um.get((1, 1)).unwrap().has_moved);
    let removed = um.remove((2, 2)).unwrap();
    assert_eq!((removed.x, removed.y), (2, 2));
    assert!(!um.contains_key((2, 2)));
    assert!(um.remove((2, 2)).is_none());
    assert_eq!(um.values().len(), 2);
}

#[test]
fn distance_over_open_ground_is_the_axis_distance() {
    let m = open_map(8, 8);
    assert_eq!(get_actual_distance_from_goal((3, 3), (3, 3), &m), 0);
    assert_eq!(get_actual_distance_from_goal((0, 0), (1, 0), &m), 1);
    assert_eq!(get_actual_distance_from_goal((0, 0), (3, 2), &m), 5);
    assert_eq!(get_actual_distance_from_goal((7, 7), (0, 0), &m), 14);
}

#[test]
fn distance_goes_around_a_wall_and_is_zero_when_cut_off() {
    let mut m = open_map(5, 5);
    for y in 0..4 {
        set_tile(&mut m, (2, y), false, false);
    }
    assert_eq!(get_actual_distance_from_goal((0, 0), (4, 0), &m), 12);
    set_tile(&mut m, (2, 4), false, false);
    assert_eq!(get_actual_distance_from_goal((0, 0), (4, 0), &m), 0);
}

#[test]
fn goal_distance_table_covers_the_grid() {
    let m = open_map(64, 64);
    let rows = goal_distance_rows(&m, (0, 0));
    assert_eq!(rows.len(), 4096);
    assert_eq!(rows[0], (0, 0, 0));
    assert_eq!(rows[1], (1, 0, 1));
    assert_eq!(rows[64], (0, 1, 1));
    assert_eq!(rows[4095], (63, 63, 126));
}

#[test]
fn layout_letters_and_tiles() {
    assert_eq!(tile_letter(Team::Enemy, '1'), '2');
    assert_eq!(tile_letter(Team::Enemy, '2'), '1');
    assert_eq!(tile_letter(Team::Player, '1'), '1');
    assert_eq!(tile_letter(Team::Enemy, 'b'), 'b');
    let water = tile_for('=', 1, 2);
    assert!(!water.is_traversable && water.can_attack_through);
    let camp = tile_for('f', 0, 0);
    assert_eq!(camp.contained_structure, Some(Structure::Camp));
    let castle = tile_for('2', 0, 0);
    assert_eq!(castle.contained_structure, Some(Structure::ECastle));
    let rock = tile_for('\u{2589}', 0, 0);
    assert!(!rock.is_traversable && !rock.can_attack_through);
    let line: Vec<char> = "1 b =2".chars().collect();
    assert_eq!(row_letters(Team::Enemy, &line), vec!['2', 'b', '=']);
    let lines: Vec<Vec<char>> = vec!["1 b ".chars().collect(), "  2 f ".chars().collect(), "t ".chars().collect()];
    let g = letter_grid(Team::Player, 2, &lines);
    assert_eq!(g.len(), 2);
    let l = lay_out(&g);
    assert_eq!(l.player_castle, (0, 0));
    assert_eq!(l.enemy_castle, (1, 1));
    assert_eq!(l.camps, vec![(1, 0), (2, 1)]);
    assert!(l.tiles.contains_key((1, 2)));
    assert!(!l.tiles.contains_key((2, 0)));
}

fn lines(text: &str) -> Vec<Vec<char>> {
    text.lines().map(|l| l.chars().collect()).collect()
}

#[test]
fn distance_map_reads_its_sections() {
    let d = DistanceMap::new(&lines("0 0 7\np1_castle\n1 2 3\nend\n\nenemy_castle\n1 2 4\nbarb_camps\n# 5 6\n1 2 9\n# 8 9\n1 2 10")).unwrap();
    assert_eq!(d.to_player_castle.get((0, 0)), Some(7));
    assert_eq!(d.to_player_castle.get((1, 2)), Some(3));
    assert_eq!(d.to_enemy_castle.get((1, 2)), Some(4));
    assert_eq!(d.to_barbarian_camps.get((5, 6), (1, 2)), Some(9));
    assert_eq!(d.to_barbarian_camps.get((8, 9), (1, 2)), Some(10));
    assert_eq!(d.to_barbarian_camps.get((7, 7), (1, 2)), None);
    assert!(DistanceMap::new(&lines("p1_castle\n1 x 3")).is_err());
    assert!(DistanceMap::new(&lines("# 1")).is_ok());
    assert!(DistanceMap::new(&lines("# a b")).is_err());
}

#[test]
fn planner_placements_and_targets() {
    let s = SuccinctUnit::new(vec![(1, 1), (2, 2)], 3);
    assert_eq!(s.possible_moves.len(), 2);
    assert_eq!(s.attack_range, 3);
    let placements = vec![(1, 1), (2, 2), (3, 3)];
    assert!(placement_taken(&placements, &(2, 2)));
    assert!(!placement_taken(&placements, &(4, 4)));
    assert!(placement_taken_before(&placements, &(1, 1), 1));
    assert!(!placement_taken_before(&placements, &(2, 2), 1));
    let mut m = open_map(5, 5);
    m.update_team((0, 2), Some(Team::Player));
    m.update_team((0, 1), Some(Team::Enemy));
    m.update_team((2, 0), Some(Team::Barbarians));
    assert_eq!(sorted(generalized_tiles_can_attack(&m, (0, 0), 2)), vec![(0, 2), (2, 0)]);
}

#[test]
fn unit_value_facts_of_a_position() {
    let mut m = open_map(10, 10);
    m.update_team((2, 3), Some(Team::Player));
    let d = DistanceMap::new(&lines("p1_castle\n3 3 0\nenemy_castle\n3 3 4\n# 4 4\n3 3 2\n# 9 9\n3 3 12")).unwrap();
    let camps = vec![(9, 9), (4, 4)];
    let f = unit_value_facts(1, (3, 3), &m, &camps, &d);
    assert_eq!(f.distance_from_own_castle, 4);
    assert!(f.defending);
    assert_eq!(f.distance_from_enemy_castle, 0);
    assert!(f.sieging);
    assert_eq!(f.distance_from_nearest_camp, 2);
    assert!(!f.capturing_camp);
    assert_eq!(f.tiles_to_attack, vec![(3, 2)]);
    assert!(f.able_to_attack);
    let none = unit_value_facts(1, (3, 3), &m, &Vec::new(), &d);
    assert_eq!(none.distance_from_nearest_camp, -1);
    let d2 = DistanceMap::new(&lines("p1_castle\n5 4 1\nenemy_castle\n5 4 9\n# 4 4\n5 4 1")).unwrap();
    let on_camp = unit_value_facts(1, (5, 4), &m, &vec![(4, 4)], &d2);
    assert_eq!(on_camp.distance_from_nearest_camp, 0);
    assert!(on_camp.capturing_camp);
    assert!(!on_camp.defending);
}

#[test]
fn distance_lookups_are_checked_before_use() {
    let d = DistanceMap::new(&lines("p1_castle\n3 3 0\nenemy_castle\n3 3 4\n# 4 4\n3 3 2\n# 9 9\n3 3 12")).unwrap();
    assert!(value_lookups_ok((3, 3), &vec![(9, 9), (4, 4)], &d));
    assert!(value_lookups_ok((3, 3), &Vec::new(), &d));
    // No distance from (5, 5) to either castle is listed.
    assert!(!value_lookups_ok((5, 5), &Vec::new(), &d));
    // The nearest camp, (1, 1), has no distances listed.
    assert!(!value_lookups_ok((3, 3), &vec![(1, 1), (9, 9)], &d));
}

#[test]
fn walks_end_at_a_free_tile_or_their_stop() {
    let mut m = open_map(10, 10);
    // From (5, 5) toward (2, 2) the first tile beside the walk is free.
    assert!(walk_ends(&m, (2, 2), (5, 5)));
    for y in 0..10 {
        for x in 0..10 {
            m.update_team((y, x), Some(Team::Barbarians));
        }
    }
    // With every tile taken, a diagonal walk still reaches its stop...
    assert!(walk_ends(&m, (2, 2), (5, 5)));
    // ...but a walk that passes beside its stop runs off the range of i32.
    assert!(!walk_ends(&m, (0x7fff_fff5, 0x7fff_fff9), (0x7fff_fff0, 0x7fff_fff0)));
}

/// The length of a shortest route from `a` to `b` through traversable tiles
/// of a `w` by `h` grid, or 0 when there is none.
fn shortest(trav: &Vec<Vec<bool>>, w: u32, h: u32, a: (u32, u32), b: (u32, u32)) -> u32 {
    if a == b {
        return 0;
    }
    let mut dist = vec![vec![u32::MAX; w as usize]; h as usize];
    let mut queue = std::collections::VecDeque::new();
    dist[a.1 as usize][a.0 as usize] = 0;
    queue.push_back(a);
    while let Some((x, y)) = queue.pop_front() {
        let d = dist[y as usize][x as usize];
        let mut next = Vec::new();
        if x > 0 { next.push((x - 1, y)); }
        if x + 1 < w { next.push((x + 1, y)); }
        if y > 0 { next.push((x, y - 1)); }
        if y + 1 < h { next.push((x, y + 1)); }
        for n in next {
            if n == b {
                return d + 1;
            }
            if trav[n.1 as usize][n.0 as usize] && dist[n.1 as usize][n.0 as usize] == u32::MAX {
                dist[n.1 as usize][n.0 as usize] = d + 1;
                queue.push_back(n);
            }
        }
    }
    0
}

#[test]
fn distance_is_the_shortest_route_on_scattered_walls() {
    let mut seed: u64 = 12345;
    let mut next = || {
        seed = seed.wrapping_mul(6364136223846793005).wrapping_add(1442695040888963407);
        (seed >> 33) as u32
    };
    for _ in 0..200 {
        let (w, h) = (10u32, 10u32);
        let mut m = open_map(w, h);
        let mut trav = vec![vec![true; w as usize]; h as usize];
        for y in 0..h {
            for x in 0..w {
                if next() % 10 < 3 {
                    set_tile(&mut m, (x, y), false, false);
                    trav[y as usize][x as usize] = false;
                }
            }
        }
        let a = (next() % w, next() % h);
        let b = (next() % w, next() % h);
        assert_eq!(get_actual_distance_from_goal(a, b, &m), shortest(&trav, w, h, a, b));
    }
}

#[test]
fn a_sure_shot_always_deals_damage() {
    // Accuracy 100 against a unit that is not a scout never misses.
    let sure = Unit::new(0, 0, Team::Player, 20, 2, 1, 100, 3, 6, UnitKind::Melee, false);
    let target = melee(1, 0, Team::Enemy);
    for _ in 0..200 {
        let d = sure.get_attack_damage(&target);
        assert!((3..=6).contains(&d));
    }
    // Accuracy 0 never hits.
    let blind = Unit::new(0, 0, Team::Player, 20, 2, 1, 0, 3, 6, UnitKind::Melee, false);
    for _ in 0..50 {
        assert_eq!(blind.get_attack_damage(&target), 0);
    }
}

/// The walking distances to `goal` on map `m` within the 64 by 64 grid,
/// found breadth first from the goal; `None` where no route reaches.
fn reference_distances(m: &TileMap, goal: (u32, u32)) -> Vec<Option<u32>> {
    let mut dist: Vec<Option<u32>> = vec![None; 64 * 64];
    let mut queue = std::collections::VecDeque::new();
    dist[(goal.1 * 64 + goal.0) as usize] = Some(0);
    queue.push_back(goal);
    while let Some(p) = queue.pop_front() {
        let d = dist[(p.1 * 64 + p.0) as usize].unwrap();
        for dir in 0..4 {
            if let Some(q) = neighbor(p, dir) {
                let k = (q.1 * 64 + q.0) as usize;
                if dist[k].is_none() {
                    if let Some(t) = m.get((q.1, q.0)) {
                        dist[k] = Some(d + 1);
                        if t.is_traversable {
                            queue.push_back(q);
                        }
                    }
                }
            }
        }
    }
    dist
}

#[test]
fn goal_distance_table_matches_a_breadth_first_search() {
    let mut m = open_map(64, 64);
    // A wall across column 20 with a gap in row 63, and a walled-in pocket.
    for y in 0..63 {
        set_tile(&mut m, (20, y), false, false);
    }
    for (x, y) in [(39, 40), (41, 40), (40, 39), (40, 41)] {
        set_tile(&mut m, (x, y), false, false);
    }
    let goal = (5, 5);
    let rows = goal_distance_rows(&m, goal);
    let reference = reference_distances(&m, goal);
    for (k, e) in rows.iter().enumerate() {
        assert_eq!((e.0, e.1), ((k % 64) as u32, (k / 64) as u32));
        let expected = reference[k].unwrap_or(0);
        assert_eq!(e.2, expected, "distance from ({}, {})", e.0, e.1);
    }
    // Round the end of the wall: across it, then back up.
    assert_eq!(rows[5 * 64 + 25].2, 20 + 58 + 58);
    assert_eq!(rows[40 * 64 + 40].2, 0);
}

#[test]
fn targets_come_in_the_order_of_the_attack_range() {
    let mut m = open_map(10, 10);
    let u = melee(5, 5, Team::Player);
    for p in [(4, 5), (5, 6), (6, 5)] {
        m.update_team((p.1, p.0), Some(Team::Enemy));
    }
    // The search looks left, right, up and down, in that order.
    assert_eq!(u.get_tiles_in_attack_range(&m), vec![(4, 5), (6, 5), (5, 4), (5, 6)]);
    assert_eq!(u.get_tiles_can_attack(&m), vec![(4, 5), (6, 5), (5, 6)]);
    assert_eq!(u.get_tiles_can_attack_from_pos((5, 5), &m), u.get_tiles_can_attack(&m));
    let e = melee(5, 5, Team::Enemy);
    m.update_team((4, 5), Some(Team::Player));
    assert_eq!(e.get_tiles_can_attack_from_pos((5, 5), &m), generalized_tiles_can_attack(&m, (5, 5), 1));
    assert_eq!(generalized_tiles_can_attack(&m, (5, 5), 1), vec![(5, 4)]);
}

#[test]
fn written_distances_read_back_as_the_tables() {
    // A small map, so that the searches from the tiles off it end at once.
    let mut m = open_map(10, 10);
    for y in 0..8 {
        set_tile(&mut m, (5, y), false, false);
    }
    let camps = vec![(2, 2), (7, 1)];
    let (p1, p2) = ((1, 8), (8, 1));
    let lines = goal_distance_lines(&m, p1, p2, &camps);
    let text: Vec<String> = lines.iter().map(|l| l.iter().collect()).collect();
    assert_eq!(text[0], "p1_castle");
    assert_eq!(text[1], "0 0 ".to_string() + &get_actual_distance_from_goal((0, 0), p1, &m).to_string());
    assert_eq!(text[4097], "end");
    assert_eq!(text[4098], "");
    assert_eq!(text[4099], "enemy_castle");
    assert_eq!(text[2 * 4099], "barb_camps");
    assert_eq!(text[2 * 4099 + 1], "# 2 2");
    assert_eq!(text.last().unwrap(), "end");
    let dm = DistanceMap::new(&lines).unwrap();
    for (goal, table) in [(p1, &dm.to_player_castle), (p2, &dm.to_enemy_castle)] {
        for (x, y, d) in goal_distance_rows(&m, goal) {
            assert_eq!(table.get((x, y)), Some(d));
        }
    }
    for c in &camps {
        for (x, y, d) in goal_distance_rows(&m, *c) {
            assert_eq!(dm.to_barbarian_camps.get(*c, (x, y)), Some(d));
        }
    }
    // Around the wall, through its gap in the last two rows.
    assert_eq!(dm.to_enemy_castle.get((1, 1)), Some(7 + 7 + 7));
    assert_eq!(dm.to_player_castle.get((64, 0)), None);
    assert_eq!(dm.to_barbarian_camps.get((7, 7), (0, 0)), None);
}

#[test]
fn distance_from_or_to_a_position_without_a_tile() {
    let mut m = open_map(5, 5);
    m.remove((0, 0));
    // The unit's own position has no tile: the search still starts there.
    assert_eq!(get_actual_distance_from_goal((0, 0), (4, 0), &m), 4);
    assert_eq!(get_actual_distance_from_goal((0, 0), (2, 3), &m), 5);
    // A goal without a tile is reached over the tiles next to it.
    assert_eq!(get_actual_distance_from_goal((4, 4), (0, 0), &m), 8);
    assert_eq!(get_actual_distance_from_goal((1, 0), (0, 0), &m), 1);
    // A unit off the map with no tile next to it reaches nothing.
    assert_eq!(get_actual_distance_from_goal((20, 20), (0, 1), &m), 0);
}

#[test]
fn crossover_swaps_the_section_between_the_bounds() {
    let a = vec![1, 2, 3, 4, 5];
    let b = vec![10, 20, 30, 40, 50];
    assert_eq!(crossover_at(&a, &b, 1, 3), (vec![10, 2, 3, 40, 50], vec![1, 20, 30, 4, 5]));
    assert_eq!(crossover_at(&a, &b, 2, 2), (b.clone(), a.clone()));
    assert_eq!(crossover_at(&a, &b, 0, 5), (a.clone(), b.clone()));
}

#[test]
fn a_mutation_takes_the_first_free_drawn_place() {
    let moves = vec![(1, 1), (2, 2), (3, 3), (4, 4)];
    let planned = vec![(3, 3), (9, 9)];
    // The unit's own place and a planned place are drawn again.
    let draws = vec![0, 2, 1, 3, 3, 3, 3, 3, 3, 3, 3];
    assert_eq!(mutation_move(&moves, (1, 1), &planned, &draws), (2, 2));
    // Ten refused draws: the place before the eleventh draw is taken.
    let stuck = vec![0, 0, 2, 2, 0, 0, 2, 2, 0, 0, 3];
    assert_eq!(mutation_move(&moves, (1, 1), &planned, &stuck), (3, 3));
    let stuck_first = vec![0, 0, 2, 2, 0, 0, 2, 2, 0, 0, 0];
    assert_eq!(mutation_move(&moves, (1, 1), &planned, &stuck_first), (2, 2));
}
