//! Game logic of Castle Quest, a turn-based strategy game: the wire format of
//! multiplayer events, teams and turns, the tile map and unit rules, the
//! turns of the player, the computer enemy and the barbarians, the
//! objectives, and the two sides of the multiplayer server.

pub mod codec;
pub mod team;
pub mod player_state;
pub mod tile;
pub mod tile_map;
pub mod pathing;
pub mod random;
pub mod unit;
pub mod unit_map;
pub mod objective_manager;
pub mod banner;
pub mod map_layout;
pub mod game_map;
pub mod barbarian_turn;
pub mod distance;
pub mod pixel_coordinates;
pub mod unit_interface;
pub mod game_state;
pub mod player_turn;
pub mod decimal;
pub mod distance_map;
pub mod distance_text;
pub mod population;
pub mod client;
pub mod server;
pub mod cursor;
pub mod input;
pub mod enemy_turn;
pub mod multi_player;
