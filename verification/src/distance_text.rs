//! Writing the distance tables in the text form that `DistanceMap::new`
//! reads: a section per objective, a line "x y d" per tile.

use vstd::prelude::*;
use crate::decimal::{spec_is_digit, spec_digits_value, spec_parse_u32, spec_split_spaces, spec_sign_stripped};
use crate::distance::{lemma_walking_distance_unique, spec_has_tile, spec_in_grid_pt, spec_walking_distance};
use crate::distance_map::{ReadState, Section, spec_lines_view, spec_read_line, spec_read_lines, spec_section_listed};
use crate::population::{goal_distance_rows, TABLE_SIDE};
use crate::tile_map::TileMap;

verus! {

/// The character of the decimal digit `d`.
pub open spec fn spec_digit_char(d: int) -> char {
    if d == 0 { '0' } else if d == 1 { '1' } else if d == 2 { '2' } else if d == 3 { '3' } else if d == 4 { '4' }
    else if d == 5 { '5' } else if d == 6 { '6' } else if d == 7 { '7' } else if d == 8 { '8' } else { '9' }
}

/// The decimal digits of `n`, most significant first, without leading zeros.
pub open spec fn spec_decimal(n: nat) -> Seq<char>
    decreases n,
{
    if n < 10 {
        seq![spec_digit_char(n as int)]
    } else {
        spec_decimal(n / 10).push(spec_digit_char((n % 10) as int))
    }
}

/// The digits of a number are digits, at least one, and spell the number.
proof fn lemma_decimal(n: nat)
    ensures
        spec_decimal(n).len() >= 1,
        forall|i: int| 0 <= i < spec_decimal(n).len() ==> spec_is_digit(#[trigger] spec_decimal(n)[i]),
        spec_digits_value(spec_decimal(n)) == n,
    decreases n,
{
    let s = spec_decimal(n);
    if n < 10 {
        assert(s.drop_last() =~= Seq::<char>::empty());
        assert(spec_digit_char(n as int) as int - '0' as int == n);
        assert(spec_digits_value(s) == spec_digits_value(s.drop_last()) * 10 + (s.last() as int - '0' as int));
    } else {
        lemma_decimal(n / 10);
        let p = spec_decimal(n / 10);
        assert(s.drop_last() =~= p);
        let d = (n % 10) as int;
        assert(spec_digit_char(d) as int - '0' as int == d);
        assert(s[s.len() - 1] == spec_digit_char(d));
        assert forall|i: int| 0 <= i < s.len() implies spec_is_digit(#[trigger] s[i]) by {
            if i < p.len() {
                assert(s[i] == p[i]);
            }
        }
        assert(s.last() == spec_digit_char(d));
        assert(spec_digits_value(s) == spec_digits_value(p) * 10 + (s.last() as int - '0' as int));
        assert((n / 10) * 10 + n % 10 == n) by (nonlinear_arith);
    }
}

/// Reading the digits of a 32-bit number gives the number back.
pub proof fn lemma_parse_decimal(n: u32)
    ensures
        spec_parse_u32(spec_decimal(n as nat)) == Some(n),
{
    lemma_decimal(n as nat);
    let s = spec_decimal(n as nat);
    assert(spec_is_digit(s[0]));
    assert(spec_sign_stripped(s) == s);
}

/// The character of the decimal digit `d`.
fn digit_char(d: u32) -> (c: char)
    requires
        d < 10,
    ensures
        c == spec_digit_char(d as int),
{
    if d == 0 { '0' } else if d == 1 { '1' } else if d == 2 { '2' } else if d == 3 { '3' } else if d == 4 { '4' }
    else if d == 5 { '5' } else if d == 6 { '6' } else if d == 7 { '7' } else if d == 8 { '8' } else { '9' }
}

/// Appends the decimal digits of `n` to `out`.
pub fn push_decimal(n: u32, out: &mut Vec<char>)
    ensures
        final(out)@ == old(out)@ + spec_decimal(n as nat),
    decreases n,
{
    if n >= 10 {
        push_decimal(n / 10, out);
    }
    out.push(digit_char(n % 10));
    proof {
        if n >= 10 {
            assert(spec_decimal(n as nat) == spec_decimal((n / 10) as nat).push(spec_digit_char((n % 10) as int)));
        }
    }
    assert(out@ =~= old(out)@ + spec_decimal(n as nat));
}

/// A line without spaces is one field.
proof fn lemma_split_word(w: Seq<char>)
    requires
        forall|i: int| 0 <= i < w.len() ==> #[trigger] w[i] != ' ',
    ensures
        spec_split_spaces(w) == seq![w],
    decreases w.len(),
{
    if w.len() > 0 {
        let p = w.drop_last();
        assert forall|i: int| 0 <= i < p.len() implies #[trigger] p[i] != ' ' by {
            assert(p[i] == w[i]);
        }
        lemma_split_word(p);
        assert(w[w.len() - 1] != ' ');
        assert(p.push(w.last()) =~= w);
        assert(seq![p].update(0, p.push(w.last())) =~= seq![w]);
    } else {
        assert(w =~= Seq::<char>::empty());
    }
}

/// A space and then a word without spaces add that word as one more field.
proof fn lemma_split_more(s: Seq<char>, w: Seq<char>)
    requires
        forall|i: int| 0 <= i < w.len() ==> #[trigger] w[i] != ' ',
    ensures
        spec_split_spaces(s + seq![' '] + w) == spec_split_spaces(s).push(w),
    decreases w.len(),
{
    let t = s + seq![' '] + w;
    if w.len() == 0 {
        assert(t.drop_last() =~= s);
        assert(t.last() == ' ');
        assert(w =~= Seq::<char>::empty());
    } else {
        let p = w.drop_last();
        assert forall|i: int| 0 <= i < p.len() implies #[trigger] p[i] != ' ' by {
            assert(p[i] == w[i]);
        }
        lemma_split_more(s, p);
        assert(t.drop_last() =~= s + seq![' '] + p);
        assert(t.last() == w.last());
        assert(w[w.len() - 1] != ' ');
        let init = spec_split_spaces(s).push(p);
        assert(p.push(w.last()) =~= w);
        assert(init.update(init.len() - 1, p.push(w.last())) =~= spec_split_spaces(s).push(w));
    }
}

/// The line "x y d" of the distance `d` from (`x`, `y`).
pub open spec fn spec_row_line(x: u32, y: u32, d: u32) -> Seq<char> {
    spec_decimal(x as nat) + seq![' '] + spec_decimal(y as nat) + seq![' '] + spec_decimal(d as nat)
}

/// The line "# x y" that starts the section of the camp at `c`.
pub open spec fn spec_camp_line(c: (u32, u32)) -> Seq<char> {
    seq!['#'] + seq![' '] + spec_decimal(c.0 as nat) + seq![' '] + spec_decimal(c.1 as nat)
}

/// The table of the section that reading state `st` is in.
pub open spec fn spec_section_table(st: ReadState) -> Map<(u32, u32), u32> {
    match st.0 {
        Section::PlayerCastle => st.1,
        Section::EnemyCastle => st.2,
        Section::Camp(c) => st.3[c],
    }
}

/// Reading state `st` with the table of its section replaced by `t`.
pub open spec fn spec_with_table(st: ReadState, t: Map<(u32, u32), u32>) -> ReadState {
    match st.0 {
        Section::PlayerCastle => (st.0, t, st.2, st.3),
        Section::EnemyCastle => (st.0, st.1, t, st.3),
        Section::Camp(c) => (st.0, st.1, st.2, st.3.insert(c, t)),
    }
}

/// Whether `t` gives, for every tile (x, y) of the 64 by 64 grid and for no
/// other, the walking distance (see `spec_walking_distance`) to `goal` on the tiles `m`.
pub open spec fn spec_distance_table(t: Map<(u32, u32), u32>, m: Map<(u32, u32), crate::tile::Tile>, goal: (u32, u32)) -> bool {
    &&& forall|q: (u32, u32)| #[trigger] t.contains_key(q) <==> q.0 < TABLE_SIDE && q.1 < TABLE_SIDE
    &&& forall|q: (u32, u32)| #[trigger] t.contains_key(q) ==> spec_walking_distance(m, q, goal, t[q] as int)
}

/// A table that `spec_distance_table` describes holds, for each tile of the
/// grid, what `get_actual_distance_from_goal` returns for that tile (whose
/// contract is `spec_walking_distance`), when the goal has a tile and lies
/// within the grid.
pub proof fn lemma_table_entry_is_distance(
    t: Map<(u32, u32), u32>,
    m: Map<(u32, u32), crate::tile::Tile>,
    goal: (u32, u32),
    q: (u32, u32),
    d: u32,
)
    requires
        spec_distance_table(t, m, goal),
        t.contains_key(q),
        spec_walking_distance(m, q, goal, d as int),
        spec_has_tile(m, goal),
        spec_in_grid_pt(goal),
    ensures
        t[q] == d,
{
    assert(q.0 < TABLE_SIDE && q.1 < TABLE_SIDE);
    lemma_walking_distance_unique(m, q, goal, t[q] as int, d as int);
}

/// The digits of a number hold no space.
proof fn lemma_decimal_no_space(n: nat)
    ensures
        forall|i: int| 0 <= i < spec_decimal(n).len() ==> #[trigger] spec_decimal(n)[i] != ' ',
{
    lemma_decimal(n);
    assert forall|i: int| 0 <= i < spec_decimal(n).len() implies #[trigger] spec_decimal(n)[i] != ' ' by {
        assert(spec_is_digit(spec_decimal(n)[i]));
    }
}

/// Reading the line of a distance records it in the table of the current section.
proof fn lemma_read_row_line(st: ReadState, x: u32, y: u32, d: u32)
    ensures
        spec_read_line(st, spec_row_line(x, y, d)) == Some(spec_with_table(st, spec_section_table(st).insert((x, y), d))),
{
    let a = spec_decimal(x as nat);
    let b = spec_decimal(y as nat);
    let c = spec_decimal(d as nat);
    lemma_decimal_no_space(x as nat);
    lemma_decimal_no_space(y as nat);
    lemma_decimal_no_space(d as nat);
    lemma_decimal(x as nat);
    lemma_split_word(a);
    lemma_split_more(a, b);
    lemma_split_more(a + seq![' '] + b, c);
    assert(spec_row_line(x, y, d) =~= (a + seq![' '] + b) + seq![' '] + c);
    let f = spec_split_spaces(spec_row_line(x, y, d));
    assert(f =~= seq![a, b, c]);
    reveal_strlit("#");
    assert(spec_is_digit(a[0]));
    assert(a != "#"@) by {
        if a == "#"@ {
            assert(a[0] == '#');
        }
    }
    lemma_parse_decimal(x);
    lemma_parse_decimal(y);
    lemma_parse_decimal(d);
}

/// Reading the line that starts a camp's section starts an empty table for it.
proof fn lemma_read_camp_line(st: ReadState, c: (u32, u32))
    ensures
        spec_read_line(st, spec_camp_line(c)) == Some((Section::Camp(c), st.1, st.2, st.3.insert(c, Map::empty()))),
{
    let h = seq!['#'];
    let a = spec_decimal(c.0 as nat);
    let b = spec_decimal(c.1 as nat);
    lemma_decimal_no_space(c.0 as nat);
    lemma_decimal_no_space(c.1 as nat);
    lemma_split_word(h);
    lemma_split_more(h, a);
    lemma_split_more(h + seq![' '] + a, b);
    assert(spec_camp_line(c) =~= (h + seq![' '] + a) + seq![' '] + b);
    let f = spec_split_spaces(spec_camp_line(c));
    assert(f =~= seq![h, a, b]);
    reveal_strlit("#");
    assert(h =~= "#"@);
    lemma_parse_decimal(c.0);
    lemma_parse_decimal(c.1);
}

/// Reading a line of one word: the word of a castle's section starts it;
/// any other word changes nothing.
proof fn lemma_read_word(st: ReadState, w: Seq<char>)
    requires
        forall|i: int| 0 <= i < w.len() ==> #[trigger] w[i] != ' ',
    ensures
        spec_read_line(st, w) == (if w == "p1_castle"@ {
            Some((Section::PlayerCastle, st.1, st.2, st.3))
        } else if w == "enemy_castle"@ {
            Some((Section::EnemyCastle, st.1, st.2, st.3))
        } else {
            Some(st)
        }),
{
    lemma_split_word(w);
}

/// The reading state after one more line.
proof fn lemma_read_push(lines: Seq<Vec<char>>, line: Vec<char>)
    ensures
        spec_read_lines(spec_lines_view(lines.push(line))) == match spec_read_lines(spec_lines_view(lines)) {
            Some(st) => spec_read_line(st, line@),
            None => None,
        },
{
    let v = spec_lines_view(lines.push(line));
    assert(v.drop_last() =~= spec_lines_view(lines));
    assert(v.last() == line@);
}

/// The characters of `s`.
fn text_line(s: &str) -> (r: Vec<char>)
    ensures
        r@ == s@,
{
    let n = s.unicode_len();
    let mut r: Vec<char> = Vec::new();
    let mut i: usize = 0;
    while i < n
        invariant
            i <= n,
            n == s@.len(),
            r@ == s@.take(i as int),
        decreases n - i,
    {
        r.push(s.get_char(i));
        assert(r@ =~= s@.take(i + 1));
        i += 1;
    }
    assert(s@.take(n as int) =~= s@);
    r
}

/// The line "x y d".
fn row_line(x: u32, y: u32, d: u32) -> (r: Vec<char>)
    ensures
        r@ == spec_row_line(x, y, d),
{
    let mut r: Vec<char> = Vec::new();
    push_decimal(x, &mut r);
    r.push(' ');
    push_decimal(y, &mut r);
    r.push(' ');
    push_decimal(d, &mut r);
    assert(r@ =~= spec_row_line(x, y, d));
    r
}

/// The line "# x y" for the camp at `c`.
fn camp_line(c: (u32, u32)) -> (r: Vec<char>)
    ensures
        r@ == spec_camp_line(c),
{
    let mut r: Vec<char> = Vec::new();
    r.push('#');
    r.push(' ');
    push_decimal(c.0, &mut r);
    r.push(' ');
    push_decimal(c.1, &mut r);
    assert(r@ =~= spec_camp_line(c));
    r
}

/// Every tile of the grid has its row in a table of `TABLE_SIDE` rows of `TABLE_SIDE`.
proof fn lemma_grid_index(x: int, y: int)
    requires
        0 <= x < 64,
        0 <= y < 64,
    ensures
        0 <= y * 64 + x < 64 * 64,
        (y * 64 + x) % 64 == x,
        (y * 64 + x) / 64 == y,
{
    assert(0 <= y * 64 + x < 64 * 64) by (nonlinear_arith)
        requires
            0 <= x < 64,
            0 <= y < 64;
    assert((y * 64 + x) % 64 == x && (y * 64 + x) / 64 == y) by (nonlinear_arith)
        requires
            0 <= x < 64,
            0 <= y < 64;
}

/// Appends `line` to `lines`, whose reading state is `st`.
fn push_line(lines: &mut Vec<Vec<char>>, line: Vec<char>, Ghost(st): Ghost<ReadState>)
    requires
        spec_read_lines(spec_lines_view(old(lines)@)) == Some(st),
    ensures
        final(lines)@ == old(lines)@.push(line),
        spec_read_lines(spec_lines_view(final(lines)@)) == spec_read_line(st, line@),
{
    proof {
        lemma_read_push(lines@, line);
    }
    lines.push(line);
}

/// Appends the lines "x y d" of the walking distances from every tile of
/// the grid to `goal`, row by row, to `lines`, whose reading state `st` is
/// in a section with an empty table: reading them fills that table.
fn push_table(lines: &mut Vec<Vec<char>>, map: &TileMap, goal: (u32, u32), Ghost(st): Ghost<ReadState>)
    requires
        spec_read_lines(spec_lines_view(old(lines)@)) == Some(st),
        spec_section_table(st) == Map::<(u32, u32), u32>::empty(),
        spec_section_listed(st),
        map@.dom().len() < 0x3fff_ffff,
    ensures
        spec_read_lines(spec_lines_view(final(lines)@)) matches Some(st1) && st1 == spec_with_table(st, spec_section_table(st1))
            && spec_distance_table(spec_section_table(st1), map@, goal),
{
    let rows = goal_distance_rows(map, goal);
    let ghost mut t: Map<(u32, u32), u32> = Map::empty();
    proof {
        match st.0 {
            Section::Camp(c) => {
                assert(st.3.insert(c, t) =~= st.3);
            },
            _ => {},
        }
    }
    assert(spec_with_table(st, t) == st);
    let mut k: usize = 0;
    while k < rows.len()
        invariant
            k <= rows@.len(),
            rows@.len() == TABLE_SIDE * TABLE_SIDE,
            forall|j: int| 0 <= j < rows@.len() ==> {
                let e = #[trigger] rows@[j];
                &&& e.0 == j % TABLE_SIDE as int
                &&& e.1 == j / TABLE_SIDE as int
                &&& spec_walking_distance(map@, (e.0, e.1), goal, e.2 as int)
            },
            spec_read_lines(spec_lines_view(lines@)) == Some(spec_with_table(st, t)),
            forall|q: (u32, u32)| #[trigger] t.contains_key(q) <==> exists|j: int| 0 <= j < k && (#[trigger] rows@[j]).0 == q.0 && rows@[j].1 == q.1,
            forall|q: (u32, u32)| #[trigger] t.contains_key(q) ==> spec_walking_distance(map@, q, goal, t[q] as int),
        decreases rows@.len() - k,
    {
        let e = rows[k];
        let line = row_line(e.0, e.1, e.2);
        proof {
            lemma_read_row_line(spec_with_table(st, t), e.0, e.1, e.2);
        }
        push_line(lines, line, Ghost(spec_with_table(st, t)));
        proof {
            let t2 = t.insert((e.0, e.1), e.2);
            assert(spec_section_table(spec_with_table(st, t)) == t);
            assert(spec_with_table(spec_with_table(st, t), t2) == spec_with_table(st, t2));
            assert forall|q: (u32, u32)| #[trigger] t2.contains_key(q) <==> exists|j: int| 0 <= j < k + 1 && (#[trigger] rows@[j]).0 == q.0 && rows@[j].1 == q.1 by {
                if t2.contains_key(q) && q != (e.0, e.1) {
                    assert(t.contains_key(q));
                }
                if q == (e.0, e.1) {
                    assert(rows@[k as int].0 == q.0 && rows@[k as int].1 == q.1);
                }
                if exists|j: int| 0 <= j < k + 1 && (#[trigger] rows@[j]).0 == q.0 && rows@[j].1 == q.1 {
                    let j = choose|j: int| 0 <= j < k + 1 && (#[trigger] rows@[j]).0 == q.0 && rows@[j].1 == q.1;
                    if j < k {
                        assert(t.contains_key(q));
                    } else {
                        assert(q == (e.0, e.1));
                    }
                }
            }
            assert(spec_walking_distance(map@, (e.0, e.1), goal, e.2 as int)) by {
                assert(rows@[k as int] == e);
            }
            t = t2;
        }
        k += 1;
    }
    proof {
        assert forall|q: (u32, u32)| #[trigger] t.contains_key(q) <==> q.0 < TABLE_SIDE && q.1 < TABLE_SIDE by {
            if t.contains_key(q) {
                let j = choose|j: int| 0 <= j < k && (#[trigger] rows@[j]).0 == q.0 && rows@[j].1 == q.1;
                assert(rows@[j].0 == j % 64 && rows@[j].1 == j / 64);
                assert(j / 64 < 64) by (nonlinear_arith)
                    requires
                        0 <= j < 4096;
            }
            if q.0 < TABLE_SIDE && q.1 < TABLE_SIDE {
                lemma_grid_index(q.0 as int, q.1 as int);
                let j = q.1 * 64 + q.0;
                assert(rows@[j].0 == q.0 && rows@[j].1 == q.1);
            }
        }
        assert(spec_section_table(spec_with_table(st, t)) == t);
    }
}

/// The text of the distance tables for the map `map`: the walking distances
/// from every tile of the grid to the player's castle `p1_castle`, to the
/// enemy's castle `enemy_castle`, and to each camp of `camps`. Reading it
/// back (see `spec_read_lines`, which `DistanceMap::new` follows) gives
/// exactly those tables.
pub fn goal_distance_lines(map: &TileMap, p1_castle: (u32, u32), enemy_castle: (u32, u32), camps: &Vec<(u32, u32)>) -> (r: Vec<Vec<char>>)
    requires
        map@.dom().len() < 0x3fff_ffff,
    ensures
        spec_read_lines(spec_lines_view(r@)) matches Some(st) && {
            &&& spec_distance_table(st.1, map@, p1_castle)
            &&& spec_distance_table(st.2, map@, enemy_castle)
            &&& forall|c: (u32, u32)| #[trigger] st.3.contains_key(c) <==> camps@.contains(c)
            &&& forall|c: (u32, u32)| #[trigger] st.3.contains_key(c) ==> spec_distance_table(st.3[c], map@, c)
        },
{
    let mut lines: Vec<Vec<char>> = Vec::new();
    let ghost st0: ReadState = (Section::PlayerCastle, Map::empty(), Map::empty(), Map::empty());
    assert(spec_lines_view(lines@) =~= Seq::<Seq<char>>::empty());
    proof {
        reveal_strlit("p1_castle");
        reveal_strlit("enemy_castle");
        reveal_strlit("end");
        reveal_strlit("");
        reveal_strlit("barb_camps");
        lemma_read_word(st0, "p1_castle"@);
    }
    push_line(&mut lines, text_line("p1_castle"), Ghost(st0));
    push_table(&mut lines, map, p1_castle, Ghost(st0));
    let ghost st1 = spec_read_lines(spec_lines_view(lines@))->0;
    proof {
        assert("end"@.len() != "p1_castle"@.len() && "end"@.len() != "enemy_castle"@.len());
        lemma_read_word(st1, "end"@);
    }
    push_line(&mut lines, text_line("end"), Ghost(st1));
    proof {
        assert(""@.len() != "p1_castle"@.len() && ""@.len() != "enemy_castle"@.len());
        lemma_read_word(st1, ""@);
    }
    push_line(&mut lines, text_line(""), Ghost(st1));
    proof {
        lemma_read_word(st1, "enemy_castle"@);
        assert("enemy_castle"@.len() != "p1_castle"@.len());
    }
    let ghost st2: ReadState = (Section::EnemyCastle, st1.1, st1.2, st1.3);
    push_line(&mut lines, text_line("enemy_castle"), Ghost(st1));
    push_table(&mut lines, map, enemy_castle, Ghost(st2));
    let ghost st3 = spec_read_lines(spec_lines_view(lines@))->0;
    proof {
        lemma_read_word(st3, "end"@);
    }
    push_line(&mut lines, text_line("end"), Ghost(st3));
    proof {
        lemma_read_word(st3, ""@);
    }
    push_line(&mut lines, text_line(""), Ghost(st3));
    proof {
        assert("barb_camps"@.len() != "p1_castle"@.len() && "barb_camps"@.len() != "enemy_castle"@.len());
        lemma_read_word(st3, "barb_camps"@);
    }
    push_line(&mut lines, text_line("barb_camps"), Ghost(st3));
    let ghost mut st = st3;
    let mut i: usize = 0;
    while i < camps.len()
        invariant
            i <= camps@.len(),
            map@.dom().len() < 0x3fff_ffff,
            spec_read_lines(spec_lines_view(lines@)) == Some(st),
            spec_distance_table(st.1, map@, p1_castle),
            spec_distance_table(st.2, map@, enemy_castle),
            forall|c: (u32, u32)| #[trigger] st.3.contains_key(c) <==> camps@.take(i as int).contains(c),
            forall|c: (u32, u32)| #[trigger] st.3.contains_key(c) ==> spec_distance_table(st.3[c], map@, c),
        decreases camps@.len() - i,
    {
        let c = camps[i];
        proof {
            lemma_read_camp_line(st, c);
        }
        let ghost sc: ReadState = (Section::Camp(c), st.1, st.2, st.3.insert(c, Map::empty()));
        push_line(&mut lines, camp_line(c), Ghost(st));
        push_table(&mut lines, map, c, Ghost(sc));
        proof {
            let s2 = spec_read_lines(spec_lines_view(lines@))->0;
            let t0 = camps@.take(i as int);
            let t1 = camps@.take(i + 1);
            assert(t1 =~= t0.push(c));
            assert forall|q: (u32, u32)| #[trigger] s2.3.contains_key(q) <==> t1.contains(q) by {
                if t1.contains(q) && q != c {
                    let j = choose|j: int| 0 <= j < t1.len() && t1[j] == q;
                    assert(t0[j] == q);
                }
                if t0.contains(q) {
                    let j = choose|j: int| 0 <= j < t0.len() && t0[j] == q;
                    assert(t1[j] == q);
                }
                if q == c {
                    assert(t1[i as int] == q);
                }
            }
            st = s2;
        }
        i += 1;
    }
    proof {
        assert(camps@.take(i as int) =~= camps@);
        lemma_read_word(st, "end"@);
    }
    push_line(&mut lines, text_line("end"), Ghost(st));
    lines
}

} // verus!
