//! How far units can move and attack across the tile map.

use vstd::prelude::*;
use crate::tile::{Tile, spec_unit_can_move_here};
use crate::tile_map::TileMap;

verus! {

/// Units never step past this column.
pub const MAP_WIDTH: u32 = 64;
/// Units never step past this row.
pub const MAP_HEIGHT: u32 = 64;

/// Which tiles a search may enter: free traversable tiles when moving,
/// tiles that can be attacked through when attacking.
#[derive(Clone, Copy, Debug, PartialEq, Eq, Structural)]
pub enum SearchMode {
    Movement,
    Attack,
}

/// Whether the tile of the map at unit position `q` (an (x, y) pair, stored
/// under the key (y, x)) may be entered in the given mode.
pub open spec fn spec_passable(m: Map<(u32, u32), Tile>, mode: SearchMode, q: (u32, u32)) -> bool {
    &&& m.contains_key((q.1, q.0))
    &&& match mode {
        SearchMode::Movement => spec_unit_can_move_here(m[(q.1, q.0)]),
        SearchMode::Attack => m[(q.1, q.0)].can_attack_through,
    }
}

/// `q` is one of the four neighbours of `p` that lie inside the map's width and height.
pub open spec fn spec_adjacent(p: (u32, u32), q: (u32, u32)) -> bool {
    ||| (p.0 > 0 && q.0 == p.0 - 1 && q.1 == p.1)
    ||| (p.0 < MAP_WIDTH - 1 && q.0 == p.0 + 1 && q.1 == p.1)
    ||| (p.1 > 0 && q.0 == p.0 && q.1 == p.1 - 1)
    ||| (p.1 < MAP_HEIGHT - 1 && q.0 == p.0 && q.1 == p.1 + 1)
}

/// One step of a search: to an adjacent tile that may be entered.
pub open spec fn spec_step(m: Map<(u32, u32), Tile>, mode: SearchMode, p: (u32, u32), q: (u32, u32)) -> bool {
    spec_adjacent(p, q) && spec_passable(m, mode, q)
}

/// The positions one step away from some position of `s`.
pub open spec fn spec_expand(m: Map<(u32, u32), Tile>, mode: SearchMode, s: Set<(u32, u32)>) -> Set<(u32, u32)> {
    Set::new(|q: (u32, u32)| exists|p: (u32, u32)| #[trigger] s.contains(p) && spec_step(m, mode, p, q))
}

/// The positions that can be reached from `start` in at most `k` steps.
pub open spec fn spec_reach_set(m: Map<(u32, u32), Tile>, mode: SearchMode, start: (u32, u32), k: int) -> Set<(u32, u32)>
    decreases k,
{
    if k <= 0 {
        Set::empty().insert(start)
    } else {
        let prev = spec_reach_set(m, mode, start, k - 1);
        prev.union(spec_expand(m, mode, prev))
    }
}

/// Whether `q` can be reached from `start` in at most `k` steps.
pub open spec fn spec_reachable(
    m: Map<(u32, u32), Tile>,
    mode: SearchMode,
    start: (u32, u32),
    q: (u32, u32),
    k: int,
) -> bool {
    spec_reach_set(m, mode, start, k).contains(q)
}

/// Positions first reached after exactly `k` steps.
pub open spec fn spec_layer(
    m: Map<(u32, u32), Tile>,
    mode: SearchMode,
    start: (u32, u32),
    q: (u32, u32),
    k: int,
) -> bool {
    spec_reachable(m, mode, start, q, k) && (k <= 0 || !spec_reachable(m, mode, start, q, k - 1))
}

/// Whether some of the first `i` positions of `f` steps to `q`.
pub open spec fn spec_steps_from_prefix(
    m: Map<(u32, u32), Tile>,
    mode: SearchMode,
    f: Seq<(u32, u32)>,
    i: int,
    q: (u32, u32),
) -> bool {
    exists|j: int| 0 <= j < i && #[trigger] spec_step(m, mode, f[j], q)
}

/// How many steps apart `a` and `b` are along the axes.
pub open spec fn spec_steps_apart(a: (u32, u32), b: (u32, u32)) -> int {
    let dx = a.0 - b.0;
    let dy = a.1 - b.1;
    (if dx >= 0 { dx } else { -dx }) + (if dy >= 0 { dy } else { -dy })
}

/// What can be reached in some number of steps can be reached in any larger number.
pub proof fn lemma_reach_monotone(m: Map<(u32, u32), Tile>, mode: SearchMode, start: (u32, u32), q: (u32, u32), k1: int, k2: int)
    requires
        k1 <= k2,
        spec_reachable(m, mode, start, q, k1),
    ensures
        spec_reachable(m, mode, start, q, k2),
    decreases k2 - k1,
{
    if k1 < k2 {
        lemma_reach_monotone(m, mode, start, q, k1, k2 - 1);
        if k2 - 1 >= 0 {
            assert(spec_reach_set(m, mode, start, k2) == spec_reach_set(m, mode, start, k2 - 1).union(
                spec_expand(m, mode, spec_reach_set(m, mode, start, k2 - 1))));
        } else {
            assert(spec_reach_set(m, mode, start, k2) == spec_reach_set(m, mode, start, k2 - 1));
        }
    }
}

/// What can be reached in `k` steps is at most `k` steps away along the axes.
pub proof fn lemma_reach_within_steps(m: Map<(u32, u32), Tile>, mode: SearchMode, start: (u32, u32), q: (u32, u32), k: int)
    requires
        spec_reachable(m, mode, start, q, k),
    ensures
        spec_steps_apart(start, q) <= (if k >= 0 { k } else { 0 }),
    decreases k,
{
    if k > 0 {
        let prev = spec_reach_set(m, mode, start, k - 1);
        if prev.contains(q) {
            lemma_reach_within_steps(m, mode, start, q, k - 1);
        } else {
            assert(spec_expand(m, mode, prev).contains(q));
            let p = choose|p: (u32, u32)| #[trigger] prev.contains(p) && spec_step(m, mode, p, q);
            lemma_reach_within_steps(m, mode, start, p, k - 1);
        }
    }
}

/// Every position reached, but for the start, may be entered in the search's mode.
pub proof fn lemma_reached_enterable(m: Map<(u32, u32), Tile>, mode: SearchMode, start: (u32, u32), q: (u32, u32), k: int)
    requires
        spec_reachable(m, mode, start, q, k),
        q != start,
    ensures
        spec_passable(m, mode, q),
    decreases k,
{
    if k > 0 {
        let prev = spec_reach_set(m, mode, start, k - 1);
        if prev.contains(q) {
            lemma_reached_enterable(m, mode, start, q, k - 1);
        } else {
            assert(spec_expand(m, mode, prev).contains(q));
            let p = choose|p: (u32, u32)| #[trigger] prev.contains(p) && spec_step(m, mode, p, q);
        }
    }
}

/// Whether `v` holds `q`.
pub fn contains_pos(v: &Vec<(u32, u32)>, q: (u32, u32)) -> (b: bool)
    ensures
        b == v@.contains(q),
{
    let mut i: usize = 0;
    while i < v.len()
        invariant
            i <= v@.len(),
            forall|j: int| 0 <= j < i ==> v@[j] != q,
        decreases v@.len() - i,
    {
        if v[i].0 == q.0 && v[i].1 == q.1 {
            assert(v@[i as int] == q);
            return true;
        }
        i += 1;
    }
    false
}

/// The neighbour of `p` in direction `d` (left, right, up, down for 0 to 3),
/// if it lies inside the map's width and height.
pub open spec fn spec_neighbor(p: (u32, u32), d: int) -> Option<(u32, u32)> {
    if d == 0 && p.0 > 0 {
        Some(((p.0 - 1) as u32, p.1))
    } else if d == 1 && p.0 < MAP_WIDTH - 1 {
        Some(((p.0 + 1) as u32, p.1))
    } else if d == 2 && p.1 > 0 {
        Some((p.0, (p.1 - 1) as u32))
    } else if d == 3 && p.1 < MAP_HEIGHT - 1 {
        Some((p.0, (p.1 + 1) as u32))
    } else {
        None
    }
}

pub fn neighbor(p: (u32, u32), d: u32) -> (r: Option<(u32, u32)>)
    ensures
        r == spec_neighbor(p, d as int),
{
    if d == 0 && p.0 > 0 {
        Some((p.0 - 1, p.1))
    } else if d == 1 && p.0 < MAP_WIDTH - 1 {
        Some((p.0 + 1, p.1))
    } else if d == 2 && p.1 > 0 {
        Some((p.0, p.1 - 1))
    } else if d == 3 && p.1 < MAP_HEIGHT - 1 {
        Some((p.0, p.1 + 1))
    } else {
        None
    }
}

/// The adjacent positions are exactly the neighbours in the four directions.
proof fn lemma_adjacent_directions(p: (u32, u32), q: (u32, u32))
    ensures
        spec_adjacent(p, q) <==> exists|d: int| 0 <= d < 4 && #[trigger] spec_neighbor(p, d) == Some(q),
{
    if spec_adjacent(p, q) {
        if p.0 > 0 && q.0 == p.0 - 1 && q.1 == p.1 {
            assert(spec_neighbor(p, 0) == Some(q));
        } else if p.0 < MAP_WIDTH - 1 && q.0 == p.0 + 1 && q.1 == p.1 {
            assert(spec_neighbor(p, 1) == Some(q));
        } else if p.1 > 0 && q.0 == p.0 && q.1 == p.1 - 1 {
            assert(spec_neighbor(p, 2) == Some(q));
        } else {
            assert(spec_neighbor(p, 3) == Some(q));
        }
    }
}

/// Reachable in `k` steps (for positive `k`) means reachable in `k - 1`, or
/// one step away from a position reachable in `k - 1`.
pub proof fn lemma_reach_unfold(m: Map<(u32, u32), Tile>, mode: SearchMode, start: (u32, u32), k: int)
    requires
        k >= 1,
    ensures
        forall|q: (u32, u32)| #[trigger] spec_reachable(m, mode, start, q, k)
            == (spec_reachable(m, mode, start, q, k - 1)
                || exists|p: (u32, u32)| #[trigger] spec_reachable(m, mode, start, p, k - 1) && spec_step(m, mode, p, q)),
{
    assert forall|q: (u32, u32)| (exists|p: (u32, u32)| spec_reachable(m, mode, start, p, k - 1) && spec_step(m, mode, p, q))
        implies #[trigger] spec_reachable(m, mode, start, q, k) by {
        let p = choose|p: (u32, u32)| spec_reachable(m, mode, start, p, k - 1) && spec_step(m, mode, p, q);
        assert(spec_reachable(m, mode, start, p, k - 1));
    }
    assert forall|q: (u32, u32)| spec_reachable(m, mode, start, q, k - 1) implies #[trigger] spec_reachable(m, mode, start, q, k) by {
    }
    assert forall|q: (u32, u32)| #[trigger] spec_reachable(m, mode, start, q, k) && !spec_reachable(m, mode, start, q, k - 1)
        implies (exists|p: (u32, u32)| spec_reachable(m, mode, start, p, k - 1) && spec_step(m, mode, p, q)) by {
    }
}

/// Whether the tile at unit position `q` may be entered in the given mode.
pub fn passable(map: &TileMap, mode: SearchMode, q: (u32, u32)) -> (b: bool)
    ensures
        b == spec_passable(map@, mode, q),
{
    match map.get((q.1, q.0)) {
        Some(t) => match mode {
            SearchMode::Movement => t.unit_can_move_here(),
            SearchMode::Attack => t.can_attack_through,
        },
        None => false,
    }
}

/// Once no position is first reached after `k` steps, no later one is.
proof fn lemma_reach_stable(
    m: Map<(u32, u32), Tile>,
    mode: SearchMode,
    start: (u32, u32),
    k: int,
    n: int,
)
    requires
        k >= 1,
        k <= n,
        forall|q: (u32, u32)| !#[trigger] spec_layer(m, mode, start, q, k),
    ensures
        forall|q: (u32, u32)| #[trigger] spec_reachable(m, mode, start, q, n) == spec_reachable(m, mode, start, q, k),
    decreases n - k,
{
    if n > k {
        lemma_reach_unfold(m, mode, start, k + 1);
        assert forall|q: (u32, u32)| #[trigger] spec_reachable(m, mode, start, q, k + 1) == spec_reachable(m, mode, start, q, k) by {
            if spec_reachable(m, mode, start, q, k + 1) && !spec_reachable(m, mode, start, q, k) {
                let p = choose|p: (u32, u32)| #[trigger] spec_reachable(m, mode, start, p, k) && spec_step(m, mode, p, q);
                assert(!spec_layer(m, mode, start, p, k));
                assert(spec_reachable(m, mode, start, p, k - 1));
            }
        }
        assert forall|q: (u32, u32)| !#[trigger] spec_layer(m, mode, start, q, k + 1) by {
            assert(spec_reachable(m, mode, start, q, k + 1) == spec_reachable(m, mode, start, q, k));
        }
        lemma_reach_stable(m, mode, start, k + 1, n);
    }
}

/// The positions reachable in `k + 1` steps are those reachable in `k`
/// and those one step away from a position first reached after `k` steps.
proof fn lemma_next_layer(
    m: Map<(u32, u32), Tile>,
    mode: SearchMode,
    start: (u32, u32),
    f: Seq<(u32, u32)>,
    k: int,
)
    requires
        k >= 0,
        forall|q: (u32, u32)| f.contains(q) <==> spec_layer(m, mode, start, q, k),
    ensures
        forall|q: (u32, u32)| #[trigger] spec_reachable(m, mode, start, q, k + 1)
            <==> (spec_reachable(m, mode, start, q, k) || spec_steps_from_prefix(m, mode, f, f.len() as int, q)),
{
    lemma_reach_unfold(m, mode, start, k + 1);
    if k > 0 {
        lemma_reach_unfold(m, mode, start, k);
    }
    assert forall|q: (u32, u32)| #[trigger] spec_reachable(m, mode, start, q, k + 1)
        <==> (spec_reachable(m, mode, start, q, k) || spec_steps_from_prefix(m, mode, f, f.len() as int, q)) by {
        if spec_steps_from_prefix(m, mode, f, f.len() as int, q) {
            let j = choose|j: int| 0 <= j < f.len() && #[trigger] spec_step(m, mode, f[j], q);
            let p = f[j];
            assert(f.contains(p));
            assert(spec_reachable(m, mode, start, p, k));
        }
        if spec_reachable(m, mode, start, q, k + 1) && !spec_reachable(m, mode, start, q, k) {
            let p = choose|p: (u32, u32)| #[trigger] spec_reachable(m, mode, start, p, k) && spec_step(m, mode, p, q);
            if k > 0 && spec_reachable(m, mode, start, p, k - 1) {
                assert(spec_reachable(m, mode, start, q, k));
            } else {
                assert(spec_layer(m, mode, start, p, k));
                assert(f.contains(p));
                let j = choose|j: int| 0 <= j < f.len() && f[j] == p;
                assert(spec_step(m, mode, f[j], q));
            }
        }
    }
}

/// Pushing onto a sequence adds exactly the pushed element.
proof fn lemma_push_contains(s: Seq<(u32, u32)>, x: (u32, u32))
    ensures
        forall|w: (u32, u32)| #[trigger] s.push(x).contains(w) <==> (s.contains(w) || w == x),
{
    assert forall|w: (u32, u32)| #[trigger] s.push(x).contains(w) <==> (s.contains(w) || w == x) by {
        if s.push(x).contains(w) {
            let j = choose|j: int| 0 <= j < s.push(x).len() && s.push(x)[j] == w;
            if j < s.len() {
                assert(s[j] == w);
            }
        }
        if s.contains(w) {
            let j = choose|j: int| 0 <= j < s.len() && s[j] == w;
            assert(s.push(x)[j] == w);
        }
        if w == x {
            assert(s.push(x)[s.len() as int] == w);
        }
    }
}

/// Whether the search has already looked from some of the first `i` frontier
/// positions, or from the first `d` directions of `p`, at `q` and found it enterable.
pub open spec fn spec_explored(
    m: Map<(u32, u32), Tile>,
    mode: SearchMode,
    f: Seq<(u32, u32)>,
    i: int,
    p: (u32, u32),
    d: int,
    q: (u32, u32),
) -> bool {
    spec_steps_from_prefix(m, mode, f, i, q)
        || (exists|u: int| 0 <= u < d && #[trigger] spec_neighbor(p, u) == Some(q) && spec_passable(m, mode, q))
}

/// The lists `vis` (positions found) and `next` (positions found in this
/// layer) after looking from `p` in direction `d`: the neighbour there, if it
/// may be entered and has not been found yet, is added to both.
pub open spec fn spec_look(
    m: Map<(u32, u32), Tile>,
    mode: SearchMode,
    vis: Seq<(u32, u32)>,
    next: Seq<(u32, u32)>,
    p: (u32, u32),
    d: int,
) -> (Seq<(u32, u32)>, Seq<(u32, u32)>) {
    match spec_neighbor(p, d) {
        Some(q) => if spec_passable(m, mode, q) && !vis.contains(q) { (vis.push(q), next.push(q)) } else { (vis, next) },
        None => (vis, next),
    }
}

/// The lists after looking from `p` in the first `d` directions, in order.
pub open spec fn spec_look_around(
    m: Map<(u32, u32), Tile>,
    mode: SearchMode,
    vis: Seq<(u32, u32)>,
    next: Seq<(u32, u32)>,
    p: (u32, u32),
    d: nat,
) -> (Seq<(u32, u32)>, Seq<(u32, u32)>)
    decreases d,
{
    if d == 0 {
        (vis, next)
    } else {
        let prev = spec_look_around(m, mode, vis, next, p, (d - 1) as nat);
        spec_look(m, mode, prev.0, prev.1, p, d - 1)
    }
}

/// The positions found, and those of the next layer, after looking around
/// the first `i` positions of the layer `f`, starting from the found list `vis`.
pub open spec fn spec_look_layer(
    m: Map<(u32, u32), Tile>,
    mode: SearchMode,
    vis: Seq<(u32, u32)>,
    f: Seq<(u32, u32)>,
    i: nat,
) -> (Seq<(u32, u32)>, Seq<(u32, u32)>)
    decreases i,
{
    if i == 0 {
        (vis, Seq::empty())
    } else {
        let prev = spec_look_layer(m, mode, vis, f, (i - 1) as nat);
        spec_look_around(m, mode, prev.0, prev.1, f[i - 1], 4)
    }
}

/// The positions found in the order a search from `start` finds them, and
/// its last layer, after `k` layers: each layer looks around each position
/// of the one before, in order, in the four directions in order.
pub open spec fn spec_search_order(
    m: Map<(u32, u32), Tile>,
    mode: SearchMode,
    start: (u32, u32),
    k: nat,
) -> (Seq<(u32, u32)>, Seq<(u32, u32)>)
    decreases k,
{
    if k == 0 {
        (seq![start], seq![start])
    } else {
        let prev = spec_search_order(m, mode, start, (k - 1) as nat);
        spec_look_layer(m, mode, prev.0, prev.1, prev.1.len())
    }
}

/// The positions a search of `range` layers from `start` finds, in order.
pub open spec fn spec_area(m: Map<(u32, u32), Tile>, mode: SearchMode, start: (u32, u32), range: nat) -> Seq<(u32, u32)> {
    spec_search_order(m, mode, start, range).0
}

/// Once a search has an empty layer, further layers find nothing more.
proof fn lemma_search_settled(m: Map<(u32, u32), Tile>, mode: SearchMode, start: (u32, u32), k: nat, n: nat)
    requires
        k <= n,
        spec_search_order(m, mode, start, k).1.len() == 0,
    ensures
        spec_search_order(m, mode, start, n) == spec_search_order(m, mode, start, k),
    decreases n - k,
{
    if k < n {
        lemma_search_settled(m, mode, start, k, (n - 1) as nat);
        let prev = spec_search_order(m, mode, start, (n - 1) as nat);
        assert(spec_look_layer(m, mode, prev.0, prev.1, 0) == (prev.0, Seq::<(u32, u32)>::empty()));
        assert(prev.1 =~= Seq::<(u32, u32)>::empty());
    }
}

/// Every position reachable from `start` in at most `range` steps, each step
/// going to an adjacent tile that may be entered in `mode`. The start comes
/// first; no position is listed twice; the order is that of `spec_area`.
pub fn search_area(map: &TileMap, start: (u32, u32), range: u32, mode: SearchMode) -> (r: Vec<(u32, u32)>)
    ensures
        r@.no_duplicates(),
        r@.len() >= 1,
        r@[0] == start,
        forall|q: (u32, u32)| r@.contains(q) <==> spec_reachable(map@, mode, start, q, range as int),
        r@ == spec_area(map@, mode, start, range as nat),
{
    let ghost m = map@;
    let mut visited: Vec<(u32, u32)> = Vec::new();
    visited.push(start);
    let mut frontier: Vec<(u32, u32)> = Vec::new();
    frontier.push(start);
    let mut k: u32 = 0;
    assert(visited@ =~= seq![start]);
    assert(frontier@ =~= seq![start]);
    proof {
        assert forall|q: (u32, u32)| #![auto] visited@.contains(q) <==> q == start by {
            if q == start {
                assert(visited@[0] == q);
            }
        }
        assert(spec_reach_set(m, mode, start, 0) == Set::<(u32, u32)>::empty().insert(start));
    }
    while k < range && frontier.len() > 0
        invariant
            m == map@,
            k <= range,
            visited@.no_duplicates(),
            visited@.len() >= 1,
            visited@[0] == start,
            forall|q: (u32, u32)| visited@.contains(q) <==> spec_reachable(m, mode, start, q, k as int),
            forall|q: (u32, u32)| frontier@.contains(q) <==> spec_layer(m, mode, start, q, k as int),
            (visited@, frontier@) == spec_search_order(m, mode, start, k as nat),
        decreases range - k,
    {
        let ghost kk = k as int;
        let ghost f = frontier@;
        let ghost vis0 = visited@;
        let mut next: Vec<(u32, u32)> = Vec::new();
        let mut i: usize = 0;
        while i < frontier.len()
            invariant
                m == map@,
                f == frontier@,
                0 <= i <= f.len(),
                visited@.no_duplicates(),
                visited@.len() >= 1,
                visited@[0] == start,
                forall|q: (u32, u32)| #[trigger] visited@.contains(q) <==> (spec_reachable(m, mode, start, q, kk) || next@.contains(q)),
                forall|q: (u32, u32)| #[trigger] next@.contains(q) <==> (!spec_reachable(m, mode, start, q, kk)
                    && spec_steps_from_prefix(m, mode, f, i as int, q)),
                (visited@, next@) == spec_look_layer(m, mode, vis0, f, i as nat),
            decreases f.len() - i,
        {
            let p = frontier[i];
            let ghost vis_i = visited@;
            let ghost next_i = next@;
            let mut d: u32 = 0;
            while d < 4
                invariant
                    m == map@,
                    f == frontier@,
                    0 <= i < f.len(),
                    p == f[i as int],
                    0 <= d <= 4,
                    visited@.no_duplicates(),
                    visited@.len() >= 1,
                    visited@[0] == start,
                    forall|q: (u32, u32)| #[trigger] visited@.contains(q) <==> (spec_reachable(m, mode, start, q, kk) || next@.contains(q)),
                    forall|q: (u32, u32)| #[trigger] next@.contains(q) <==> (!spec_reachable(m, mode, start, q, kk)
                        && spec_explored(m, mode, f, i as int, p, d as int, q)),
                    (visited@, next@) == spec_look_around(m, mode, vis_i, next_i, p, d as nat),
                decreases 4 - d,
            {
                let nb = neighbor(p, d);
                let ghost old_visited = visited@;
                let ghost old_next = next@;
                proof {
                    assert forall|w: (u32, u32)| #![auto] spec_explored(m, mode, f, i as int, p, d + 1, w)
                        <==> (spec_explored(m, mode, f, i as int, p, d as int, w)
                            || (spec_neighbor(p, d as int) == Some(w) && spec_passable(m, mode, w))) by {
                        if exists|u: int| 0 <= u < d + 1 && #[trigger] spec_neighbor(p, u) == Some(w) && spec_passable(m, mode, w) {
                            let u = choose|u: int| 0 <= u < d + 1 && #[trigger] spec_neighbor(p, u) == Some(w) && spec_passable(m, mode, w);
                            if u == d {
                            }
                        }
                    }
                }
                match nb {
                    Some(q) => {
                        if passable(map, mode, q) && !contains_pos(&visited, q) {
                            visited.push(q);
                            next.push(q);
                            proof {
                                lemma_push_contains(old_visited, q);
                                lemma_push_contains(old_next, q);
                            }
                        }
                    },
                    None => {},
                }
                d += 1;
            }
            proof {
                assert forall|w: (u32, u32)| #![auto] spec_steps_from_prefix(m, mode, f, i + 1, w)
                    <==> spec_explored(m, mode, f, i as int, p, 4, w) by {
                    lemma_adjacent_directions(p, w);
                    if spec_steps_from_prefix(m, mode, f, i + 1, w) && !spec_steps_from_prefix(m, mode, f, i as int, w) {
                        let j = choose|j: int| 0 <= j < i + 1 && #[trigger] spec_step(m, mode, f[j], w);
                        assert(j == i);
                    }
                    if exists|u: int| 0 <= u < 4 && #[trigger] spec_neighbor(p, u) == Some(w) && spec_passable(m, mode, w) {
                        assert(spec_step(m, mode, f[i as int], w));
                    }
                }
            }
            i += 1;
        }
        proof {
            lemma_next_layer(m, mode, start, f, kk);
        }
        frontier = next;
        k += 1;
    }
    proof {
        if k < range {
            lemma_search_settled(m, mode, start, k as nat, range as nat);
        }
    }
    proof {
        if k < range {
            assert forall|q: (u32, u32)| !#[trigger] spec_layer(m, mode, start, q, k as int) by {
                if spec_layer(m, mode, start, q, k as int) {
                    assert(frontier@.contains(q));
                }
            }
            if k == 0 {
                assert(spec_layer(m, mode, start, start, 0));
                assert(frontier@.contains(start));
            }
            lemma_reach_stable(m, mode, start, k as int, range as int);
        }
    }
    visited
}

} // verus!
