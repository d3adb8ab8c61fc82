use castle_quest::banner::{Banner, Rgba, BANNER_WIN_P2};
use castle_quest::codec::{Event, EVENT_ATTACK, EVENT_END_TURN, EVENT_ID_BARBARIAN, EVENT_ID_ENEMY, EVENT_ID_PLAYER};
use castle_quest::cursor::Cursor;
use castle_quest::decimal::{parse_u32, split_spaces};
use castle_quest::input::MouseButtons;
use castle_quest::pixel_coordinates::{dragged_camera, PixelCoordinates};
use castle_quest::player_state::{PlayerAction, PlayerState};
use castle_quest::team::Team;
use castle_quest::tile::{Structure, Tile};
use castle_quest::tile_map::{pos_key, PosMap, TileMap};
use castle_quest::unit::{Unit, UnitKind};

fn chars(s: &str) -> Vec<char> {
    s.chars().collect()
}

#[test]
fn event_new_zeroes_everything_but_the_action() {
    let e = Event::new(EVENT_END_TURN);
    assert_eq!(e.action, EVENT_END_TURN);
    assert_eq!(e.id, 0);
    assert_eq!(e.from_pos, (0, 0));
    assert_eq!(e.to_pos, (0, 0));
    assert_eq!(e.value, 0);
    assert!(e.from_self);
}

#[test]
fn event_bytes_layout() {
    let e = Event::create(EVENT_ATTACK, 2, (0x0102_0304, 5), (6, 0x0a0b_0c0d), 9);
    let b = e.to_bytes();
    assert_eq!(b, [3, 2, 1, 2, 3, 4, 0, 0, 0, 5, 0, 0, 0, 6, 10, 11, 12, 13, 9]);
}

#[test]
fn team_ids_round_trip() {
    assert_eq!(Team::Player.to_id(), EVENT_ID_PLAYER);
    assert_eq!(Team::Enemy.to_id(), EVENT_ID_ENEMY);
    assert_eq!(Team::Barbarians.to_id(), EVENT_ID_BARBARIAN);
    for t in [Team::Player, Team::Enemy, Team::Barbarians] {
        assert_eq!(Team::from_id(t.to_id()), Ok(t));
    }
    assert_eq!(Team::from_id(7), Err("Invalid team id".to_string()));
}

#[test]
fn team_as_client_swaps_for_the_enemy_side() {
    let enemy_side = PlayerState::new(Team::Enemy);
    let player_side = PlayerState::new(Team::Player);
    assert_eq!(Team::Player.as_client(&enemy_side), Team::Enemy);
    assert_eq!(Team::Enemy.as_client(&enemy_side), Team::Player);
    assert_eq!(Team::Barbarians.as_client(&enemy_side), Team::Barbarians);
    assert_eq!(Team::Enemy.as_client(&player_side), Team::Enemy);
}

#[test]
fn team_names() {
    assert_eq!(Team::Player.to_string(), "player");
    assert_eq!(Team::Enemy.to_string(), "enemy");
    assert_eq!(Team::Barbarians.to_string(), "barbarians");
}

#[test]
fn turns_cycle_through_the_three_teams() {
    let mut s = PlayerState::new(Team::Player);
    assert!(s.is_turn());
    assert_eq!(s.active_unit_i, -1);
    assert_eq!(s.current_player_action, PlayerAction::Default);
    assert_eq!(s.advance_turn(), Team::Enemy);
    assert!(!s.is_turn());
    assert_eq!(s.advance_turn(), Team::Barbarians);
    assert_eq!(s.advance_turn(), Team::Player);
    assert_eq!(s.current_turn, Team::Player);
}

#[test]
fn tiles_take_units_only_when_free_and_traversable() {
    let mut t = Tile::new(1, 2, true, true, None, Some(Structure::Camp));
    assert!(t.unit_can_move_here());
    t.update_team(Some(Team::Enemy));
    assert!(!t.unit_can_move_here());
    assert_eq!(t.contained_unit_team, Some(Team::Enemy));
    let mountain = Tile::new(0, 0, false, false, None, None);
    assert!(!mountain.unit_can_move_here());
}

#[test]
fn pos_map_inserts_gets_and_removes() {
    assert_eq!(pos_key((1, 2)), 0x1_0000_0002);
    let mut m: PosMap<u32> = PosMap::new();
    assert_eq!(m.len(), 0);
    m.insert((1, 2), 5);
    m.insert((2, 1), 6);
    m.insert((1, 2), 7);
    assert_eq!(m.get((1, 2)), Some(7));
    assert_eq!(m.get((2, 1)), Some(6));
    assert_eq!(m.len(), 2);
    m.remove((1, 2));
    assert!(!m.contains_key((1, 2)));
    assert_eq!(m.len(), 1);
}

#[test]
fn tile_map_update_team_only_touches_existing_tiles() {
    let mut m: TileMap = PosMap::new();
    m.insert((0, 0), Tile::new(0, 0, true, true, None, None));
    m.update_team((0, 0), Some(Team::Player));
    m.update_team((5, 5), Some(Team::Player));
    assert_eq!(m.get((0, 0)).unwrap().contained_unit_team, Some(Team::Player));
    assert!(m.get((5, 5)).is_none());
}

#[test]
fn pixel_coordinates_of_tiles() {
    let p = PixelCoordinates::from_matrix_indices(2, 3);
    assert_eq!((p.x, p.y), (96, 64));
    assert_eq!(PixelCoordinates::matrix_indices_from_pixel(100, 70, 0, 0), (2, 3));
    assert_eq!(PixelCoordinates::matrix_indices_from_pixel(10, 10, 64, 32), (1, 2));
}

#[test]
fn cursor_marks_and_hides() {
    let mut c = Cursor::new();
    assert!(!c.is_visible);
    let u = Unit::new(1, 2, Team::Enemy, 15, 5, 4, 85, 3, 7, UnitKind::Archer, true);
    c.set_cursor(&PixelCoordinates { x: 32, y: 64 }, &u);
    assert!(c.is_visible);
    assert_eq!((c.x, c.y), (32, 64));
    assert_eq!(c.unit_team, Team::Enemy);
    assert_eq!((c.unit_hp, c.unit_max_hp), (15, 15));
    c.hide_cursor();
    assert!(!c.is_visible);
    assert_eq!((c.x, c.y), (-1, -1));
}

#[test]
fn mouse_click_only_on_the_frame_the_button_goes_down() {
    let mut b = MouseButtons::new();
    b.update(true, false);
    assert!(b.left_clicked && b.left_held);
    b.update(true, true);
    assert!(!b.left_clicked && b.left_held);
    assert!(b.right_clicked && b.right_held);
    b.update(false, false);
    assert!(!b.left_clicked && !b.left_held && !b.right_clicked && !b.right_held);
}

#[test]
fn decimal_numbers() {
    assert_eq!(parse_u32(&chars("42")), Some(42));
    assert_eq!(parse_u32(&chars("+7")), Some(7));
    assert_eq!(parse_u32(&chars("0")), Some(0));
    assert_eq!(parse_u32(&chars("4294967295")), Some(u32::MAX));
    assert_eq!(parse_u32(&chars("4294967296")), None);
    assert_eq!(parse_u32(&chars("")), None);
    assert_eq!(parse_u32(&chars("+")), None);
    assert_eq!(parse_u32(&chars("-1")), None);
    assert_eq!(parse_u32(&chars("1a")), None);
    for s in ["0", "17", "+12", "99999", "4294967295", "x", " 1", "00012"] {
        assert_eq!(parse_u32(&chars(s)), s.parse::<u32>().ok());
    }
}

#[test]
fn fields_between_single_spaces() {
    let f = split_spaces(&chars("1 22  3"));
    let f: Vec<String> = f.iter().map(|v| v.iter().collect()).collect();
    assert_eq!(f, vec!["1", "22", "", "3"]);
    assert_eq!(split_spaces(&chars("")).len(), 1);
    let g: Vec<String> = split_spaces(&chars("a b ")).iter().map(|v| v.iter().collect()).collect();
    assert_eq!(g, "a b ".split(' ').map(|s| s.to_string()).collect::<Vec<_>>());
}

#[test]
fn banner_shows_and_fades() {
    let mut b = Banner::new();
    assert_eq!(b.banner_key, "p1_banner");
    assert!(b.banner_visible);
    assert_eq!(b.banner_colors, Rgba { r: 0, g: 89, b: 178, a: 250 });
    b.show(BANNER_WIN_P2);
    assert_eq!(b.banner_colors, Rgba { r: 207, g: 21, b: 24, a: 250 });
    b.show_turn(Team::Barbarians);
    assert_eq!(b.banner_key, "b_banner");
    assert_eq!(b.banner_colors, Rgba { r: 163, g: 96, b: 30, a: 250 });
    assert!(b.prepare_frame());
    assert!(b.start_fade());
    assert_eq!(b.current_banner_transparency, 225);
    assert!(!b.start_fade());
    b.fade_step(false);
    assert_eq!(b.current_banner_transparency, 225);
    for _ in 0..9 {
        b.fade_step(true);
    }
    assert_eq!(b.current_banner_transparency, 0);
    b.fade_step(true);
    assert_eq!(b.current_banner_transparency, 0);
    assert!(!b.prepare_frame());
    assert!(!b.banner_visible);
}

#[test]
fn the_camera_follows_a_drag_by_at_most_a_tile() {
    // The mouse moved 5 pixels left: the offset goes 5 pixels down with it.
    assert_eq!(dragged_camera(-100, 2048, 1280, 300, 295), -105);
    // A long drag moves a tile at most.
    assert_eq!(dragged_camera(-100, 2048, 1280, 300, 200), -132);
    assert_eq!(dragged_camera(-100, 2048, 1280, 200, 300), -68);
    // The camera stays over the map.
    assert_eq!(dragged_camera(-10, 2048, 1280, 200, 300), 0);
    assert_eq!(dragged_camera(-760, 2048, 1280, 300, 200), -768);
}
