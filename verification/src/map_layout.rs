//! Reading a map from its text: every other character of a line is a tile
//! letter, and the letters give the terrain, the castles and the camps.

use vstd::prelude::*;
use crate::team::Team;
use crate::tile::{Tile, Structure};
use crate::tile_map::{PosMap, TileMap};

verus! {

/// The letter a player on `player_team` sees: the enemy side sees the two castles swapped.
pub open spec fn spec_tile_letter(player_team: Team, c: char) -> char {
    if player_team == Team::Enemy {
        if c == '1' { '2' } else if c == '2' { '1' } else { c }
    } else {
        c
    }
}

pub fn tile_letter(player_team: Team, c: char) -> (r: char)
    ensures
        r == spec_tile_letter(player_team, c),
{
    if player_team == Team::Enemy {
        if c == '1' { '2' } else if c == '2' { '1' } else { c }
    } else {
        c
    }
}

/// Letters of rivers and trees: they block movement but not attacks.
pub open spec fn spec_is_water_or_tree(c: char) -> bool {
    c == '\u{2551}' || c == '^' || c == 'v' || c == '<' || c == '=' || c == '>' || c == 't'
}

/// Letters of barbarian camps and forts.
pub open spec fn spec_is_camp_letter(c: char) -> bool {
    c == 'b' || c == 'f'
}

/// The tile at (`x`, `y`) drawn with letter `c`. Anything not listed is a mountain.
pub open spec fn spec_tile_for(c: char, x: u32, y: u32) -> Tile {
    if spec_is_water_or_tree(c) {
        Tile { x, y, is_traversable: false, can_attack_through: true, contained_unit_team: None, contained_structure: None }
    } else if c == ' ' {
        Tile { x, y, is_traversable: true, can_attack_through: true, contained_unit_team: None, contained_structure: None }
    } else if spec_is_camp_letter(c) || c == '_' {
        Tile { x, y, is_traversable: true, can_attack_through: true, contained_unit_team: None, contained_structure: Some(Structure::Camp) }
    } else if c == '1' {
        Tile { x, y, is_traversable: true, can_attack_through: true, contained_unit_team: None, contained_structure: Some(Structure::PCastle) }
    } else if c == '2' {
        Tile { x, y, is_traversable: true, can_attack_through: true, contained_unit_team: None, contained_structure: Some(Structure::ECastle) }
    } else {
        Tile { x, y, is_traversable: false, can_attack_through: false, contained_unit_team: None, contained_structure: None }
    }
}

/// The tile at (`x`, `y`) drawn with letter `c`.
pub fn tile_for(c: char, x: u32, y: u32) -> (t: Tile)
    ensures
        t == spec_tile_for(c, x, y),
{
    if c == '\u{2551}' || c == '^' || c == 'v' || c == '<' || c == '=' || c == '>' || c == 't' {
        Tile::new(x, y, false, true, None, None)
    } else if c == ' ' {
        Tile::new(x, y, true, true, None, None)
    } else if c == 'b' || c == 'f' || c == '_' {
        Tile::new(x, y, true, true, None, Some(Structure::Camp))
    } else if c == '1' {
        Tile::new(x, y, true, true, None, Some(Structure::PCastle))
    } else if c == '2' {
        Tile::new(x, y, true, true, None, Some(Structure::ECastle))
    } else {
        Tile::new(x, y, false, false, None, None)
    }
}

/// The letters of one line of the map: its characters at even positions, as
/// a player on `player_team` sees them.
pub open spec fn spec_row_letters(player_team: Team, line: Seq<char>) -> Seq<char> {
    Seq::new(((line.len() + 1) / 2) as nat, |k: int| spec_tile_letter(player_team, line[2 * k]))
}

/// The rows of letters of the map: its first `map_width` lines.
pub open spec fn spec_letter_grid(player_team: Team, map_width: usize, lines: Seq<Seq<char>>) -> Seq<Seq<char>> {
    let n = if map_width < lines.len() { map_width as int } else { lines.len() as int };
    Seq::new(n as nat, |x: int| spec_row_letters(player_team, lines[x]))
}

/// The contents of a grid of rows.
pub open spec fn spec_grid_view(g: Seq<Vec<char>>) -> Seq<Seq<char>> {
    Seq::new(g.len(), |x: int| g[x]@)
}

/// The letters of one line, as a player on `player_team` sees them.
pub fn row_letters(player_team: Team, line: &Vec<char>) -> (r: Vec<char>)
    ensures
        r@ == spec_row_letters(player_team, line@),
{
    let mut r: Vec<char> = Vec::new();
    let mut i: usize = 0;
    while i < line.len()
        invariant
            i <= line@.len(),
            r@ == Seq::new(((i + 1) / 2) as nat, |k: int| spec_tile_letter(player_team, line@[2 * k])),
        decreases line@.len() - i,
    {
        let ghost old_r = r@;
        if i % 2 == 0 {
            r.push(tile_letter(player_team, line[i]));
            assert(r@ =~= Seq::new(((i + 2) / 2) as nat, |k: int| spec_tile_letter(player_team, line@[2 * k]))) by {
                assert(r@.len() == old_r.len() + 1);
                assert forall|k: int| 0 <= k < r@.len() implies r@[k] == spec_tile_letter(player_team, line@[2 * k]) by {
                    if k == old_r.len() {
                        assert(2 * k == i);
                    }
                }
            }
        } else {
            assert(r@ =~= Seq::new(((i + 2) / 2) as nat, |k: int| spec_tile_letter(player_team, line@[2 * k])));
        }
        i += 1;
    }
    assert(r@ =~= spec_row_letters(player_team, line@));
    r
}

/// The rows of letters of the map from its lines: the first `map_width` of
/// them, each cut down to its characters at even positions.
pub fn letter_grid(player_team: Team, map_width: usize, lines: &Vec<Vec<char>>) -> (g: Vec<Vec<char>>)
    ensures
        spec_grid_view(g@) == spec_letter_grid(player_team, map_width, spec_grid_view(lines@)),
{
    let n: usize = if map_width < lines.len() { map_width } else { lines.len() };
    let mut g: Vec<Vec<char>> = Vec::new();
    let mut x: usize = 0;
    while x < n
        invariant
            n <= lines@.len(),
            n == (if map_width < lines@.len() { map_width as int } else { lines@.len() as int }),
            x <= n,
            g@.len() == x,
            forall|k: int| 0 <= k < x ==> (#[trigger] g@[k])@ == spec_row_letters(player_team, lines@[k]@),
        decreases n - x,
    {
        g.push(row_letters(player_team, &lines[x]));
        x += 1;
    }
    assert(spec_grid_view(g@) =~= spec_letter_grid(player_team, map_width, spec_grid_view(lines@)));
    g
}

/// The tiles of the first `x` rows of grid `g` and of the first `y` cells of row `x`.
pub open spec fn spec_tiles_prefix(g: Seq<Seq<char>>, x: int, y: int) -> Map<(u32, u32), Tile> {
    Map::new(
        |k: (u32, u32)| (k.0 < x && k.1 < g[k.0 as int].len()) || (k.0 == x && k.1 < y),
        |k: (u32, u32)| spec_tile_for(g[k.0 as int][k.1 as int], k.0, k.1),
    )
}

/// The tiles of grid `g`: row `x`, cell `y` is the tile under key (x, y).
pub open spec fn spec_grid_tiles(g: Seq<Seq<char>>) -> Map<(u32, u32), Tile> {
    spec_tiles_prefix(g, g.len() as int, 0)
}

/// The cells of row `x` with their keys.
pub open spec fn spec_row_cells(row: Seq<char>, x: int) -> Seq<(char, (u32, u32))> {
    Seq::new(row.len(), |k: int| (row[k], (x as u32, k as u32)))
}

/// The cells of the first `n` rows of `g` with their keys, row after row.
pub open spec fn spec_cells(g: Seq<Seq<char>>, n: int) -> Seq<(char, (u32, u32))>
    decreases n,
{
    if n <= 0 {
        Seq::empty()
    } else {
        spec_cells(g, n - 1) + spec_row_cells(g[n - 1], n - 1)
    }
}

/// Where the last cell of `cells` with letter `c` is, as (column, row); (0, 0) if there is none.
pub open spec fn spec_last_found(cells: Seq<(char, (u32, u32))>, c: char) -> (u32, u32)
    decreases cells.len(),
{
    if cells.len() == 0 {
        (0, 0)
    } else if cells.last().0 == c {
        (cells.last().1.1, cells.last().1.0)
    } else {
        spec_last_found(cells.drop_last(), c)
    }
}

/// Where the camps among `cells` are, as (column, row), in order.
pub open spec fn spec_camp_cells(cells: Seq<(char, (u32, u32))>) -> Seq<(u32, u32)>
    decreases cells.len(),
{
    if cells.len() == 0 {
        Seq::empty()
    } else if spec_is_camp_letter(cells.last().0) {
        spec_camp_cells(cells.drop_last()).push((cells.last().1.1, cells.last().1.0))
    } else {
        spec_camp_cells(cells.drop_last())
    }
}

/// The keys of the cells of the first `n` rows of `g` have coordinates below
/// the largest 32-bit number, when the grid's sizes fit in 32 bits.
proof fn lemma_cells_bounded(g: Seq<Seq<char>>, n: int)
    requires
        0 <= n <= g.len() <= u32::MAX,
        forall|x: int| 0 <= x < g.len() ==> (#[trigger] g[x]).len() <= u32::MAX,
    ensures
        forall|j: int| 0 <= j < spec_cells(g, n).len() ==> (#[trigger] spec_cells(g, n)[j]).1.0 < u32::MAX
            && spec_cells(g, n)[j].1.1 < u32::MAX,
    decreases n,
{
    if n > 0 {
        lemma_cells_bounded(g, n - 1);
        let a = spec_cells(g, n - 1);
        let b = spec_row_cells(g[n - 1], n - 1);
        assert(g[n - 1].len() <= u32::MAX);
        assert forall|j: int| 0 <= j < spec_cells(g, n).len() implies (#[trigger] spec_cells(g, n)[j]).1.0 < u32::MAX
            && spec_cells(g, n)[j].1.1 < u32::MAX by {
            if j >= a.len() {
                assert(spec_cells(g, n)[j] == b[j - a.len()]);
            } else {
                assert(spec_cells(g, n)[j] == a[j]);
            }
        }
    }
}

/// Camps come from cells, so their coordinates are bounded as the cells' are.
proof fn lemma_camp_cells_from(cells: Seq<(char, (u32, u32))>)
    requires
        forall|j: int| 0 <= j < cells.len() ==> (#[trigger] cells[j]).1.0 < u32::MAX && cells[j].1.1 < u32::MAX,
    ensures
        forall|i: int| 0 <= i < spec_camp_cells(cells).len() ==> (#[trigger] spec_camp_cells(cells)[i]).0 < u32::MAX
            && spec_camp_cells(cells)[i].1 < u32::MAX,
    decreases cells.len(),
{
    if cells.len() > 0 {
        let d = cells.drop_last();
        assert forall|j: int| 0 <= j < d.len() implies (#[trigger] d[j]).1.0 < u32::MAX && d[j].1.1 < u32::MAX by {
            assert(d[j] == cells[j]);
        }
        lemma_camp_cells_from(d);
        assert(cells.last() == cells[cells.len() - 1]);
        let r = spec_camp_cells(cells);
        let rd = spec_camp_cells(d);
        assert forall|i: int| 0 <= i < r.len() implies (#[trigger] r[i]).0 < u32::MAX && r[i].1 < u32::MAX by {
            if spec_is_camp_letter(cells.last().0) && i == rd.len() {
                assert(r[i] == (cells.last().1.1, cells.last().1.0));
            } else {
                assert(r[i] == rd[i]);
            }
        }
    }
}

/// The camps of a grid whose sizes fit in 32 bits have coordinates below the
/// largest 32-bit number.
pub proof fn lemma_camp_cells_bounded(g: Seq<Seq<char>>, n: int, i: int)
    requires
        0 <= n <= g.len() <= u32::MAX,
        forall|x: int| 0 <= x < g.len() ==> (#[trigger] g[x]).len() <= u32::MAX,
        0 <= i < spec_camp_cells(spec_cells(g, n)).len(),
    ensures
        spec_camp_cells(spec_cells(g, n))[i].0 < u32::MAX,
        spec_camp_cells(spec_cells(g, n))[i].1 < u32::MAX,
{
    lemma_cells_bounded(g, n);
    lemma_camp_cells_from(spec_cells(g, n));
}

/// What a grid of letters lays out: its tiles, the player's castle, the
/// enemy's castle and the camps (the last three as (column, row)).
pub struct Layout {
    pub tiles: TileMap,
    pub player_castle: (u32, u32),
    pub enemy_castle: (u32, u32),
    pub camps: Vec<(u32, u32)>,
}

/// Lays out the tiles of grid `g`, and finds the castles (the last cell of
/// each castle letter) and the camps, reading row by row.
pub fn lay_out(g: &Vec<Vec<char>>) -> (l: Layout)
    requires
        g@.len() <= u32::MAX,
        forall|x: int| 0 <= x < g@.len() ==> (#[trigger] g@[x])@.len() <= u32::MAX,
    ensures
        l.tiles@ == spec_grid_tiles(spec_grid_view(g@)),
        l.player_castle == spec_last_found(spec_cells(spec_grid_view(g@), g@.len() as int), '1'),
        l.enemy_castle == spec_last_found(spec_cells(spec_grid_view(g@), g@.len() as int), '2'),
        l.camps@ == spec_camp_cells(spec_cells(spec_grid_view(g@), g@.len() as int)),
{
    let ghost gv = spec_grid_view(g@);
    let mut tiles: TileMap = PosMap::new();
    let mut player_castle: (u32, u32) = (0, 0);
    let mut enemy_castle: (u32, u32) = (0, 0);
    let mut camps: Vec<(u32, u32)> = Vec::new();
    let mut xi: usize = 0;
    assert(tiles@ =~= spec_tiles_prefix(gv, 0, 0));
    while xi < g.len()
        invariant
            gv == spec_grid_view(g@),
            g@.len() <= u32::MAX,
            forall|x: int| 0 <= x < g@.len() ==> (#[trigger] g@[x])@.len() <= u32::MAX,
            xi <= g@.len(),
            tiles@ == spec_tiles_prefix(gv, xi as int, 0),
            player_castle == spec_last_found(spec_cells(gv, xi as int), '1'),
            enemy_castle == spec_last_found(spec_cells(gv, xi as int), '2'),
            camps@ == spec_camp_cells(spec_cells(gv, xi as int)),
        decreases g@.len() - xi,
    {
        let row = &g[xi];
        let x: u32 = xi as u32;
        let ghost before = spec_cells(gv, xi as int);
        let mut yi: usize = 0;
        assert(gv[xi as int] == row@);
        assert(before + spec_row_cells(row@, xi as int).take(0) =~= before);
        while yi < row.len()
            invariant
                gv == spec_grid_view(g@),
                xi < g@.len(),
                x == xi,
                row@ == gv[xi as int],
                row@.len() <= u32::MAX,
                yi <= row@.len(),
                before == spec_cells(gv, xi as int),
                tiles@ == spec_tiles_prefix(gv, xi as int, yi as int),
                player_castle == spec_last_found(before + spec_row_cells(row@, xi as int).take(yi as int), '1'),
                enemy_castle == spec_last_found(before + spec_row_cells(row@, xi as int).take(yi as int), '2'),
                camps@ == spec_camp_cells(before + spec_row_cells(row@, xi as int).take(yi as int)),
            decreases row@.len() - yi,
        {
            let y: u32 = yi as u32;
            let c = row[yi];
            tiles.insert((x, y), tile_for(c, x, y));
            if c == 'b' || c == 'f' {
                camps.push((y, x));
            }
            if c == '1' {
                player_castle = (y, x);
            }
            if c == '2' {
                enemy_castle = (y, x);
            }
            proof {
                let cells = spec_row_cells(row@, xi as int);
                let a = before + cells.take(yi as int);
                let b = before + cells.take(yi + 1);
                assert(b =~= a.push((c, (x, y))));
                assert(b.drop_last() =~= a);
                assert(b.last() == (c, (x, y)));
                assert(tiles@ =~= spec_tiles_prefix(gv, xi as int, yi + 1));
            }
            yi += 1;
        }
        proof {
            assert(spec_row_cells(row@, xi as int).take(yi as int) =~= spec_row_cells(row@, xi as int));
            assert(spec_cells(gv, xi + 1) == before + spec_row_cells(gv[xi as int], xi as int));
            assert(tiles@ =~= spec_tiles_prefix(gv, xi + 1, 0));
        }
        xi += 1;
    }
    Layout { tiles, player_castle, enemy_castle, camps }
}

} // verus!
