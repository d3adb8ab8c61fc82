# Castle Quest

A turn-based strategy game on a tile map: the player and an enemy each hold
a castle, barbarians hold camps, and a side wins by holding the other's
castle for three turns. The enemy is either the computer or another player
over a small room server.

- `src/` is the game's logic, verified with Verus: the map and its tiles,
  units and their movement and attack ranges, the events that change a game
  and how they are applied, the player's, the enemy's and the barbarians'
  turns, the objectives, the distance tables the enemy's planner reads and their text form, and
  the client's and the server's handling of rooms and event bytes.
- `tests/` runs the library on concrete maps, units and messages.
- `app/` is the program around it: the SDL window and scenes, reading the
  map file, reading and writing the distance file, the network sockets, and the enemy's genetic
  planner, whose scores are floating point.
