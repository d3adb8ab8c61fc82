//! The walking distance between two positions, found by searching from both
//! ends at once until the two searches meet.

use vstd::prelude::*;
use crate::tile::Tile;
use crate::tile_map::{PosMap, TileMap};
use crate::pathing::{neighbor, spec_neighbor, MAP_WIDTH, MAP_HEIGHT};

verus! {

/// A position waiting in a search queue, with the number of steps it took to reach it.
#[derive(Clone, Copy, Debug)]
pub struct QueueObject {
    pub coords: (u32, u32),
    pub cost: u32,
}

/// Whether `p` and `q` are one step apart.
pub open spec fn spec_touch(p: (u32, u32), q: (u32, u32)) -> bool {
    let dx = p.0 - q.0;
    let dy = p.1 - q.1;
    (if dx >= 0 { dx } else { -dx }) + (if dy >= 0 { dy } else { -dy }) == 1
}

/// Whether the map has a traversable tile at unit position `p`.
pub open spec fn spec_open_tile(m: Map<(u32, u32), Tile>, p: (u32, u32)) -> bool {
    m.contains_key((p.1, p.0)) && m[(p.1, p.0)].is_traversable
}

/// Whether `path` goes from `a` to `b` one step at a time, every position
/// between its ends being a traversable tile.
pub open spec fn spec_route(m: Map<(u32, u32), Tile>, path: Seq<(u32, u32)>, a: (u32, u32), b: (u32, u32)) -> bool {
    &&& path.len() >= 2
    &&& path[0] == a
    &&& path.last() == b
    &&& forall|i: int| 0 < i < path.len() - 1 ==> spec_open_tile(m, #[trigger] path[i])
    &&& forall|i: int| 0 <= i < path.len() - 1 ==> spec_touch(#[trigger] path[i], path[i + 1])
}

/// Whether `path` starts at `start` and goes one step at a time over
/// traversable tiles.
pub open spec fn spec_half_path(m: Map<(u32, u32), Tile>, path: Seq<(u32, u32)>, start: (u32, u32)) -> bool {
    &&& path.len() >= 1
    &&& path[0] == start
    &&& forall|i: int| 0 < i < path.len() ==> spec_open_tile(m, #[trigger] path[i])
    &&& forall|i: int| 0 <= i < path.len() - 1 ==> spec_touch(#[trigger] path[i], path[i + 1])
}

/// A route walked backwards is a route between the same ends, swapped.
pub proof fn lemma_route_reverse(m: Map<(u32, u32), Tile>, path: Seq<(u32, u32)>, a: (u32, u32), b: (u32, u32))
    requires
        spec_route(m, path, a, b),
    ensures
        spec_route(m, path.reverse(), b, a),
{
    let r = path.reverse();
    let n = path.len();
    assert forall|i: int| 0 < i < r.len() - 1 implies spec_open_tile(m, #[trigger] r[i]) by {
        assert(r[i] == path[n - 1 - i]);
    }
    assert forall|i: int| 0 <= i < r.len() - 1 implies spec_touch(#[trigger] r[i], r[i + 1]) by {
        assert(r[i] == path[n - 1 - i]);
        assert(r[i + 1] == path[n - 2 - i]);
        assert(spec_touch(path[n - 2 - i], path[n - 1 - i]));
    }
}

/// A route takes at least as many steps as the two ends are apart.
pub proof fn lemma_route_at_least_apart(m: Map<(u32, u32), Tile>, path: Seq<(u32, u32)>, a: (u32, u32), b: (u32, u32))
    requires
        spec_route(m, path, a, b),
    ensures
        path.len() - 1 >= spec_apart(a, b),
    decreases path.len(),
{
    if path.len() > 2 {
        let rest = path.subrange(1, path.len() as int);
        assert(spec_touch(path[0], path[1]));
        assert forall|i: int| 0 < i < rest.len() - 1 implies spec_open_tile(m, #[trigger] rest[i]) by {
            assert(rest[i] == path[i + 1]);
        }
        assert forall|i: int| 0 <= i < rest.len() - 1 implies spec_touch(#[trigger] rest[i], rest[i + 1]) by {
            assert(rest[i] == path[i + 1]);
            assert(rest[i + 1] == path[i + 2]);
        }
        lemma_route_at_least_apart(m, rest, path[1], b);
    } else {
        assert(spec_touch(path[0], path[1]));
    }
}

/// How many steps apart `a` and `b` are at least: the sum of the distances
/// along each axis.
pub open spec fn spec_apart(a: (u32, u32), b: (u32, u32)) -> int {
    let dx = a.0 - b.0;
    let dy = a.1 - b.1;
    (if dx >= 0 { dx } else { -dx }) + (if dy >= 0 { dy } else { -dy })
}

/// Whether position `p` lies within the map's width and height.
pub open spec fn spec_in_grid_pt(p: (u32, u32)) -> bool {
    p.0 < MAP_WIDTH && p.1 < MAP_HEIGHT
}

/// Whether every position of `path` lies within the map's width and height.
pub open spec fn spec_in_grid(path: Seq<(u32, u32)>) -> bool {
    forall|i: int| 0 <= i < path.len() ==> spec_in_grid_pt(#[trigger] path[i])
}

/// Whether the map has a tile at unit position `p`.
pub open spec fn spec_has_tile(m: Map<(u32, u32), Tile>, p: (u32, u32)) -> bool {
    m.contains_key((p.1, p.0))
}

/// Whether `d` is the walking distance from `p` to `goal` on the tiles `m`
/// as the search finds it: 0 from a position to itself; when positive, the
/// length of a route, one within the map's width and height when both ends
/// are; and no longer than any route within the map's width and height of
/// two steps or more, nor than one of a single step to a goal with a tile
/// (so 0 for different positions only when there is none). Of a goal without
/// a tile next to `p`, the search sees the single step only from a tile at `p`.
pub open spec fn spec_walking_distance(m: Map<(u32, u32), Tile>, p: (u32, u32), goal: (u32, u32), d: int) -> bool {
    &&& p == goal ==> d == 0
    &&& d > 0 ==> exists|path: Seq<(u32, u32)>| #[trigger] spec_route(m, path, p, goal) && path.len() == d + 1
        && (spec_in_grid_pt(p) && spec_in_grid_pt(goal) ==> spec_in_grid(path))
    &&& forall|path: Seq<(u32, u32)>| #[trigger] spec_route(m, path, p, goal) && spec_in_grid(path)
        && (path.len() >= 3 || spec_has_tile(m, goal))
        ==> path.len() - 1 >= d && (p != goal ==> d > 0)
}

/// The walking distance is one number when the goal has a tile and both
/// ends lie within the map's width and height: any two numbers that are
/// both the walking distance from `p` to `goal` are equal.
pub proof fn lemma_walking_distance_unique(m: Map<(u32, u32), Tile>, p: (u32, u32), goal: (u32, u32), d1: int, d2: int)
    requires
        d1 >= 0,
        d2 >= 0,
        spec_walking_distance(m, p, goal, d1),
        spec_walking_distance(m, p, goal, d2),
        spec_has_tile(m, goal),
        spec_in_grid_pt(p),
        spec_in_grid_pt(goal),
    ensures
        d1 == d2,
{
    if d1 > 0 {
        let path = choose|path: Seq<(u32, u32)>| #[trigger] spec_route(m, path, p, goal) && path.len() == d1 + 1
            && (spec_in_grid_pt(p) && spec_in_grid_pt(goal) ==> spec_in_grid(path));
        assert(path.len() - 1 >= d2 && d2 > 0);
    }
    if d2 > 0 {
        let path = choose|path: Seq<(u32, u32)>| #[trigger] spec_route(m, path, p, goal) && path.len() == d2 + 1
            && (spec_in_grid_pt(p) && spec_in_grid_pt(goal) ==> spec_in_grid(path));
        assert(path.len() - 1 >= d1 && d1 > 0);
    }
}

/// Two positions one step apart, both inside the map's width and height, are
/// neighbours in one of the four directions.
proof fn lemma_touch_neighbor(p: (u32, u32), q: (u32, u32))
    requires
        spec_touch(p, q),
        p.0 < MAP_WIDTH && p.1 < MAP_HEIGHT,
        q.0 < MAP_WIDTH && q.1 < MAP_HEIGHT,
    ensures
        exists|d: int| 0 <= d < 4 && #[trigger] spec_neighbor(p, d) == Some(q),
{
    if q.0 + 1 == p.0 {
        assert(spec_neighbor(p, 0) == Some(q));
    } else if q.0 == p.0 + 1 {
        assert(spec_neighbor(p, 1) == Some(q));
    } else if q.1 + 1 == p.1 {
        assert(spec_neighbor(p, 2) == Some(q));
    } else {
        assert(spec_neighbor(p, 3) == Some(q));
    }
}

/// Two half paths whose ends are one step apart make a route between their starts.
proof fn lemma_join(m: Map<(u32, u32), Tile>, pa: Seq<(u32, u32)>, pb: Seq<(u32, u32)>, a: (u32, u32), b: (u32, u32))
    requires
        spec_half_path(m, pa, a),
        spec_half_path(m, pb, b),
        spec_touch(pa.last(), pb.last()),
    ensures
        spec_route(m, pa + pb.reverse(), a, b),
        (pa + pb.reverse()).len() == pa.len() + pb.len(),
        spec_in_grid(pa) && spec_in_grid(pb) ==> spec_in_grid(pa + pb.reverse()),
{
    let path = pa + pb.reverse();
    let n1 = pa.len();
    let n2 = pb.len();
    assert forall|i: int| 0 < i < path.len() - 1 implies spec_open_tile(m, #[trigger] path[i]) by {
        if i < n1 {
            assert(path[i] == pa[i]);
        } else {
            assert(path[i] == pb[n2 - 1 - (i - n1)]);
        }
    }
    assert forall|i: int| 0 <= i < path.len() - 1 implies spec_touch(#[trigger] path[i], path[i + 1]) by {
        if i < n1 - 1 {
            assert(path[i] == pa[i]);
            assert(path[i + 1] == pa[i + 1]);
        } else if i == n1 - 1 {
            assert(path[i] == pa.last());
            assert(path[i + 1] == pb[n2 - 1]);
        } else {
            assert(path[i] == pb[n2 - 1 - (i - n1)]);
            assert(path[i + 1] == pb[n2 - 2 - (i - n1)]);
            assert(spec_touch(pb[n2 - 2 - (i - n1)], pb[n2 - 1 - (i - n1)]));
        }
    }
    assert(path[0] == a);
    assert(path.last() == pb[0]);
    if spec_in_grid(pa) && spec_in_grid(pb) {
        assert forall|i: int| 0 <= i < path.len() implies spec_in_grid_pt(#[trigger] path[i]) by {
            if i < n1 {
                assert(path[i] == pa[i]);
            } else {
                assert(path[i] == pb[n2 - 1 - (i - n1)]);
            }
        }
    }
}

/// The first `k + 1` positions of a route from `a`, and the rest walked back
/// from the route's end, are half paths.
proof fn lemma_split_route(m: Map<(u32, u32), Tile>, path: Seq<(u32, u32)>, a: (u32, u32), b: (u32, u32), k: int)
    requires
        spec_route(m, path, a, b),
        0 <= k < path.len() - 1,
    ensures
        spec_half_path(m, path.take(k + 1), a),
        spec_half_path(m, path.skip(k + 1).reverse(), b),
        path.take(k + 1).last() == path[k],
        path.skip(k + 1).reverse().last() == path[k + 1],
        path.skip(k + 1).reverse().len() == path.len() - k - 1,
        spec_in_grid(path) ==> spec_in_grid(path.take(k + 1)) && spec_in_grid(path.skip(k + 1).reverse()),
{
    let pa = path.take(k + 1);
    let pb = path.skip(k + 1).reverse();
    let n = path.len();
    assert forall|i: int| 0 < i < pa.len() implies spec_open_tile(m, #[trigger] pa[i]) by {
        assert(pa[i] == path[i]);
    }
    assert forall|i: int| 0 <= i < pa.len() - 1 implies spec_touch(#[trigger] pa[i], pa[i + 1]) by {
        assert(pa[i] == path[i]);
        assert(pa[i + 1] == path[i + 1]);
    }
    assert forall|i: int| 0 < i < pb.len() implies spec_open_tile(m, #[trigger] pb[i]) by {
        assert(pb[i] == path[n - 1 - i]);
    }
    assert forall|i: int| 0 <= i < pb.len() - 1 implies spec_touch(#[trigger] pb[i], pb[i + 1]) by {
        assert(pb[i] == path[n - 1 - i]);
        assert(pb[i + 1] == path[n - 2 - i]);
        assert(spec_touch(path[n - 2 - i], path[n - 1 - i]));
    }
    assert(pb[0] == path[n - 1]);
    assert(pb.last() == path[k + 1]);
    if spec_in_grid(path) {
        assert forall|i: int| 0 <= i < pa.len() implies spec_in_grid_pt(#[trigger] pa[i]) by {
            assert(pa[i] == path[i]);
        }
        assert forall|i: int| 0 <= i < pb.len() implies spec_in_grid_pt(#[trigger] pb[i]) by {
            assert(pb[i] == path[n - 1 - i]);
        }
    }
}

/// Whether the expanded position `x` of a search has, in direction `d`, no
/// traversable neighbour that the search has not reached in at most one
/// step more than `x`.
pub open spec fn spec_closed_toward(m: Map<(u32, u32), Tile>, visited: Map<(u32, u32), u32>, x: QueueObject, d: int) -> bool {
    match spec_neighbor(x.coords, d) {
        Some(y) => spec_open_tile(m, y) ==> visited.contains_key(y) && visited[y] <= x.cost + 1,
        None => true,
    }
}

/// Whether the neighbour of `x` in direction `d`, if it has a tile, has not
/// been reached by the search that reached `visited`.
pub open spec fn spec_unmet_toward(m: Map<(u32, u32), Tile>, visited: Map<(u32, u32), u32>, x: (u32, u32), d: int) -> bool {
    match spec_neighbor(x, d) {
        Some(y) => spec_has_tile(m, y) ==> !visited.contains_key(y),
        None => true,
    }
}

/// A closed direction stays closed as the search reaches more positions
/// without changing the costs it had.
proof fn lemma_closed_mono(m: Map<(u32, u32), Tile>, v1: Map<(u32, u32), u32>, v2: Map<(u32, u32), u32>, x: QueueObject, d: int)
    requires
        spec_closed_toward(m, v1, x, d),
        forall|k: (u32, u32)| #[trigger] v1.contains_key(k) ==> v2.contains_key(k) && v2[k] == v1[k],
    ensures
        spec_closed_toward(m, v2, x, d),
{
    match spec_neighbor(x.coords, d) {
        Some(y) => {
            if spec_open_tile(m, y) {
                assert(v1.contains_key(y));
            }
        },
        None => {},
    }
}

/// One end of the search: a queue of the positions reached, in the order
/// they were reached, the next one to expand, and how far each reached
/// position is.
struct Frontier {
    queue: Vec<QueueObject>,
    head: usize,
    visited: PosMap<u32>,
    /// For each queued position, a path from the search's start that reaches it.
    paths: Ghost<Seq<Seq<(u32, u32)>>>,
}

impl Frontier {
    #[verifier::opaque]
    spec fn inv(&self, m: Map<(u32, u32), Tile>, start: (u32, u32)) -> bool {
        let q = self.queue@;
        &&& q.len() >= 1
        &&& q[0] == QueueObject { coords: start, cost: 0 }
        &&& self.head <= q.len()
        &&& self.paths@.len() == q.len()
        &&& forall|j: int| 0 <= j < q.len() ==> self.visited@.contains_key((#[trigger] q[j]).coords)
            && self.visited@[q[j].coords] == q[j].cost
        &&& forall|k: (u32, u32)| #[trigger] self.visited@.contains_key(k) ==> exists|j: int| 0 <= j < q.len() && (#[trigger] q[j]).coords == k
        &&& forall|j1: int, j2: int| 0 <= j1 < q.len() && 0 <= j2 < q.len() && j1 != j2 ==> (#[trigger] q[j1]).coords != (#[trigger] q[j2]).coords
        &&& forall|j: int| 0 <= j < q.len() ==> (#[trigger] q[j]).cost <= j
        &&& forall|j: int| 0 <= j < q.len() ==> (#[trigger] q[j]).coords == start || m.contains_key((q[j].coords.1, q[j].coords.0))
        &&& forall|j: int| 0 <= j < q.len() ==> spec_half_path(m, #[trigger] self.paths@[j], start)
            && self.paths@[j].last() == q[j].coords && self.paths@[j].len() == q[j].cost + 1
        &&& spec_in_grid_pt(start) ==> forall|j: int| 0 <= j < q.len() ==> spec_in_grid(#[trigger] self.paths@[j])
    }

    /// One more than the cost of the last expanded position (0 before any).
    spec fn top(&self) -> int {
        if self.head == 0 { 0 } else { self.queue@[self.head - 1].cost + 1 }
    }

    /// The cost of the next position to expand, or `top` once none is left.
    spec fn front(&self) -> int {
        if self.head < self.queue@.len() { self.queue@[self.head as int].cost as int } else { self.top() }
    }

    /// The queue is in order of cost, no cost is more than one past the last
    /// expanded position's, and every expanded position's traversable
    /// neighbours have been reached in at most one step more.
    #[verifier::opaque]
    spec fn layered(&self, m: Map<(u32, u32), Tile>) -> bool {
        let q = self.queue@;
        &&& forall|i: int, j: int| 0 <= i <= j < q.len() ==> (#[trigger] q[i]).cost <= (#[trigger] q[j]).cost
        &&& forall|j: int| 0 <= j < q.len() ==> (#[trigger] q[j]).cost <= self.top()
        &&& forall|i: int, d: int| 0 <= i < self.head && 0 <= d < 4 ==> #[trigger] spec_closed_toward(m, self.visited@, q[i], d)
    }

    fn start(p: (u32, u32), Ghost(m): Ghost<Map<(u32, u32), Tile>>) -> (f: Frontier)
        ensures
            f.inv(m, p),
            f.layered(m),
            f.head == 0,
            f.queue@.len() == 1,
    {
        let mut queue: Vec<QueueObject> = Vec::new();
        queue.push(QueueObject { coords: p, cost: 0 });
        let mut visited: PosMap<u32> = PosMap::new();
        visited.insert(p, 0);
        let paths: Ghost<Seq<Seq<(u32, u32)>>> = Ghost(Seq::empty().push(Seq::empty().push(p)));
        let f = Frontier { queue, head: 0, visited, paths };
        assert(f.visited@.contains_key(p));
        proof {
            reveal(Frontier::inv);
            reveal(Frontier::layered);
        }
        f
    }
}

/// A queue whose positions are all different, and all tiles of a map but for
/// its start, is at most one longer than the map has tiles.
proof fn lemma_queue_bound(q: Seq<QueueObject>, start: (u32, u32), dom: Set<(u32, u32)>)
    requires
        dom.finite(),
        forall|j1: int, j2: int| 0 <= j1 < q.len() && 0 <= j2 < q.len() && j1 != j2 ==> (#[trigger] q[j1]).coords != (#[trigger] q[j2]).coords,
        forall|j: int| 0 <= j < q.len() ==> (#[trigger] q[j]).coords == start || dom.contains((q[j].coords.1, q[j].coords.0)),
    ensures
        q.len() <= dom.len() + 1,
{
    let sw = q.map_values(|o: QueueObject| (o.coords.1, o.coords.0));
    assert(sw.no_duplicates()) by {
        assert forall|i: int, j: int| 0 <= i < sw.len() && 0 <= j < sw.len() && i != j implies sw[i] != sw[j] by {
            assert(sw[i] == (q[i].coords.1, q[i].coords.0));
            assert(sw[j] == (q[j].coords.1, q[j].coords.0));
            assert(q[i].coords != q[j].coords);
        }
    }
    let big = dom.insert((start.1, start.0));
    assert(sw.to_set().subset_of(big)) by {
        assert forall|x: (u32, u32)| sw.to_set().contains(x) implies big.contains(x) by {
            let j = choose|j: int| 0 <= j < sw.len() && sw[j] == x;
            assert(q[j].coords == start || dom.contains((q[j].coords.1, q[j].coords.0)));
        }
    }
    sw.unique_seq_to_set();
    vstd::set_lib::lemma_len_subset(sw.to_set(), big);
    assert(big.len() <= dom.len() + 1);
}

/// The queue of a search is at most one longer than the map has tiles.
proof fn lemma_frontier_bound(f: &Frontier, m: Map<(u32, u32), Tile>, start: (u32, u32))
    requires
        f.inv(m, start),
        m.dom().finite(),
    ensures
        f.queue@.len() <= m.dom().len() + 1,
        f.head <= f.queue@.len(),
        f.queue@.len() >= 1,
{
    reveal(Frontier::inv);
    lemma_queue_bound(f.queue@, start, m.dom());
}

/// Every position a half path from a search's start reaches within the
/// search's front (or anywhere, once the search has run out) has been
/// reached, in at most as many steps as the path takes.
proof fn lemma_reach(f: &Frontier, m: Map<(u32, u32), Tile>, s: (u32, u32), path: Seq<(u32, u32)>)
    requires
        f.inv(m, s),
        f.layered(m),
        spec_half_path(m, path, s),
        spec_in_grid(path),
        f.head == f.queue@.len() || path.len() - 1 <= f.front(),
    ensures
        f.visited@.contains_key(path.last()),
        f.visited@[path.last()] <= path.len() - 1,
    decreases path.len(),
{
    reveal(Frontier::inv);
    reveal(Frontier::layered);
    let q = f.queue@;
    if path.len() == 1 {
        assert(q[0].coords == s);
    } else {
        let pre = path.drop_last();
        assert forall|i: int| 0 < i < pre.len() implies spec_open_tile(m, #[trigger] pre[i]) by {
            assert(pre[i] == path[i]);
        }
        assert forall|i: int| 0 <= i < pre.len() - 1 implies spec_touch(#[trigger] pre[i], pre[i + 1]) by {
            assert(pre[i] == path[i]);
            assert(pre[i + 1] == path[i + 1]);
        }
        assert forall|i: int| 0 <= i < pre.len() implies spec_in_grid_pt(#[trigger] pre[i]) by {
            assert(pre[i] == path[i]);
        }
        lemma_reach(f, m, s, pre);
        let l = path.len() - 1;
        let y = pre.last();
        let x = path.last();
        assert(y == path[l - 1]);
        let j = choose|j: int| 0 <= j < q.len() && (#[trigger] q[j]).coords == y;
        assert(f.visited@[y] == q[j].cost);
        if j >= f.head {
            assert(q[f.head as int].cost <= q[j].cost);
        }
        assert(j < f.head);
        assert(spec_touch(path[l - 1], path[l]));
        assert(spec_open_tile(m, path[l]));
        assert(spec_in_grid_pt(path[l - 1]) && spec_in_grid_pt(path[l]));
        lemma_touch_neighbor(y, x);
        let d = choose|d: int| 0 <= d < 4 && #[trigger] spec_neighbor(y, d) == Some(x);
        assert(spec_closed_toward(m, f.visited@, q[j], d));
    }
}

/// What the two searches keep true while neither has met the other: each
/// is layered; they take turns layer by layer, the search from the unit
/// never more than one layer ahead; the expanded positions of the current
/// layer have no neighbour the other search has reached; no position is
/// reached by both; when the goal has a tile, no expanded position of the
/// search from the unit is next to the goal; and every route of two steps
/// or more within the map's width and height is longer than the two fronts
/// together.
spec fn spec_meet_inv(a: Frontier, b: Frontier, m: Map<(u32, u32), Tile>, unit: (u32, u32), goal: (u32, u32)) -> bool {
    &&& a.layered(m)
    &&& b.layered(m)
    &&& b.front() <= a.front() <= b.front() + 1
    &&& a.front() == b.front() ==> (b.head == 0 || b.queue@[b.head - 1].cost < b.front())
    &&& a.front() == b.front() + 1 ==> (a.head == 0 || a.queue@[a.head - 1].cost < a.front())
    &&& a.front() == b.front() ==> forall|i: int, d: int| 0 <= i < a.head && 0 <= d < 4 && a.queue@[i].cost == a.front()
        ==> #[trigger] spec_unmet_toward(m, b.visited@, a.queue@[i].coords, d)
    &&& a.front() == b.front() + 1 ==> forall|i: int, d: int| 0 <= i < b.head && 0 <= d < 4 && b.queue@[i].cost == b.front()
        ==> #[trigger] spec_unmet_toward(m, a.visited@, b.queue@[i].coords, d)
    &&& forall|k: (u32, u32)| #[trigger] a.visited@.contains_key(k) ==> !b.visited@.contains_key(k)
    &&& spec_has_tile(m, goal) ==> forall|i: int, d: int| 0 <= i < a.head && 0 <= d < 4
        ==> #[trigger] spec_neighbor(a.queue@[i].coords, d) != Some(goal)
    &&& forall|path: Seq<(u32, u32)>| #[trigger] spec_route(m, path, unit, goal) && spec_in_grid(path) && path.len() >= 3
        ==> path.len() - 1 >= a.front() + b.front() + 1
}

/// A route of one step, within the map's width and height, to a goal with a
/// tile is found as soon as the search from the unit has expanded its start.
proof fn lemma_no_short_route(a: Frontier, m: Map<(u32, u32), Tile>, unit: (u32, u32), goal: (u32, u32), path: Seq<(u32, u32)>)
    requires
        a.inv(m, unit),
        a.head >= 1,
        spec_has_tile(m, goal),
        spec_has_tile(m, goal) ==> forall|i: int, d: int| 0 <= i < a.head && 0 <= d < 4
            ==> #[trigger] spec_neighbor(a.queue@[i].coords, d) != Some(goal),
    ensures
        !(spec_route(m, path, unit, goal) && spec_in_grid(path) && path.len() == 2),
{
    reveal(Frontier::inv);
    if spec_route(m, path, unit, goal) && spec_in_grid(path) && path.len() == 2 {
        assert(spec_touch(path[0], path[1]));
        assert(spec_in_grid_pt(path[0]) && spec_in_grid_pt(path[1]));
        lemma_touch_neighbor(unit, goal);
        let d = choose|d: int| 0 <= d < 4 && #[trigger] spec_neighbor(unit, d) == Some(goal);
        assert(a.queue@[0].coords == unit);
        assert(spec_neighbor(a.queue@[0].coords, d) != Some(goal));
    }
}

/// The search from the unit expands one position without meeting the
/// other search: the two searches still keep `spec_meet_inv`.
proof fn lemma_step_a(a0: Frontier, a1: Frontier, b: Frontier, m: Map<(u32, u32), Tile>, unit: (u32, u32), goal: (u32, u32))
    requires
        spec_meet_inv(a0, b, m, unit, goal),
        a0.inv(m, unit),
        a1.inv(m, unit),
        b.inv(m, goal),
        a0.head < a0.queue@.len(),
        b.head < b.queue@.len(),
        a0.front() <= b.front(),
        a1.head == a0.head + 1,
        a1.queue@.len() >= a0.queue@.len(),
        a1.queue@.take(a0.queue@.len() as int) == a0.queue@,
        a1.layered(m),
        forall|d: int| 0 <= d < 4 ==> #[trigger] spec_unmet_toward(m, b.visited@, a0.queue@[a0.head as int].coords, d),
        forall|k: (u32, u32)| #[trigger] a1.visited@.contains_key(k) ==> a0.visited@.contains_key(k) || !b.visited@.contains_key(k),
    ensures
        spec_meet_inv(a1, b, m, unit, goal),
{
    reveal(Frontier::layered);
    reveal(Frontier::inv);
    let k = a0.front();
    let h0 = a0.head as int;
    let c = a0.queue@[h0];
    assert forall|i: int| 0 <= i < a0.queue@.len() implies a1.queue@[i] == a0.queue@[i] by {
        assert(a1.queue@.take(a0.queue@.len() as int)[i] == a1.queue@[i]);
    }
    assert(a1.queue@[h0] == c);
    assert(c.cost == k);
    assert(a1.top() == k + 1);
    if a1.head < a1.queue@.len() {
        assert(a1.queue@[a1.head - 1].cost <= a1.queue@[a1.head as int].cost);
    }
    assert(a1.front() == k || a1.front() == k + 1);
    // The layer just expanded meets nothing of the other search.
    assert forall|i: int, d: int| 0 <= i < a1.head && 0 <= d < 4 && a1.queue@[i].cost == k
        implies #[trigger] spec_unmet_toward(m, b.visited@, a1.queue@[i].coords, d) by {
        if i < h0 {
            assert(a1.queue@[i] == a0.queue@[i]);
            assert(spec_unmet_toward(m, b.visited@, a0.queue@[i].coords, d));
        }
    }
    if a1.front() == b.front() + 1 {
        assert forall|i: int, d: int| 0 <= i < b.head && 0 <= d < 4 && b.queue@[i].cost == b.front()
            implies #[trigger] spec_unmet_toward(m, a1.visited@, b.queue@[i].coords, d) by {
            assert(b.queue@[i].cost <= b.queue@[b.head - 1].cost);
        }
    }
    assert forall|q: (u32, u32)| #[trigger] a1.visited@.contains_key(q) implies !b.visited@.contains_key(q) by {
        if a0.visited@.contains_key(q) {
            assert(!b.visited@.contains_key(q));
        }
    }
    if spec_has_tile(m, goal) {
        assert(b.visited@.contains_key(goal)) by {
            assert(b.queue@[0].coords == goal);
        }
        assert forall|i: int, d: int| 0 <= i < a1.head && 0 <= d < 4
            implies #[trigger] spec_neighbor(a1.queue@[i].coords, d) != Some(goal) by {
            if i < h0 {
                assert(a1.queue@[i] == a0.queue@[i]);
                assert(spec_neighbor(a0.queue@[i].coords, d) != Some(goal));
            } else {
                assert(spec_unmet_toward(m, b.visited@, c.coords, d));
            }
        }
    }
    if a1.front() == k + 1 {
        assert forall|path: Seq<(u32, u32)>| #[trigger] spec_route(m, path, unit, goal) && spec_in_grid(path) && path.len() >= 3
            implies path.len() - 1 >= a1.front() + b.front() + 1 by {
            assert(path.len() - 1 >= 2 * k + 1);
            if path.len() - 1 == 2 * k + 1 {
                assert(k >= 1);
                lemma_split_route(m, path, unit, goal, k);
                let pa = path.take(k + 1);
                let pb = path.skip(k + 1).reverse();
                lemma_reach(&a1, m, unit, pa);
                lemma_reach(&b, m, goal, pb);
                let x = path[k];
                let y = path[k + 1];
                assert(spec_touch(path[k], path[k + 1]));
                assert(spec_open_tile(m, path[k]));
                assert(spec_open_tile(m, path[k + 1]));
                let jx = choose|j: int| 0 <= j < a1.queue@.len() && (#[trigger] a1.queue@[j]).coords == x;
                let jy = choose|j: int| 0 <= j < b.queue@.len() && (#[trigger] b.queue@[j]).coords == y;
                let cx = a1.queue@[jx].cost;
                let cy = b.queue@[jy].cost;
                assert(a1.visited@[x] == cx);
                assert(b.visited@[y] == cy);
                if cx < k {
                    lemma_join(m, a1.paths@[jx], b.paths@[jy], unit, goal);
                    let r = a1.paths@[jx] + b.paths@[jy].reverse();
                    assert(spec_in_grid_pt(path[0]) && spec_in_grid_pt(path.last()));
                    assert(spec_in_grid(a1.paths@[jx]) && spec_in_grid(b.paths@[jy]));
                    assert(spec_route(m, r, unit, goal) && spec_in_grid(r));
                    if r.len() >= 3 {
                        assert(r.len() - 1 >= a0.front() + b.front() + 1);
                    } else {
                        assert(a1.paths@[jx].len() == 1 && b.paths@[jy].len() == 1);
                        assert(x == unit && y == goal);
                        assert(spec_has_tile(m, goal));
                        assert(spec_in_grid_pt(path[k]) && spec_in_grid_pt(path[k + 1]));
                        lemma_touch_neighbor(x, y);
                        let d = choose|d: int| 0 <= d < 4 && #[trigger] spec_neighbor(x, d) == Some(y);
                        assert(a1.queue@[0].coords == unit);
                        assert(spec_neighbor(a1.queue@[0].coords, d) != Some(goal));
                    }
                    assert(false);
                } else {
                    if jx >= a1.head && a1.head < a1.queue@.len() {
                        assert(a1.queue@[a1.head as int].cost <= a1.queue@[jx].cost);
                    }
                    assert(jx < a1.head);
                    assert(m.contains_key((x.1, x.0)));
                    assert(m.contains_key((y.1, y.0)));
                    assert(spec_in_grid_pt(path[k]) && spec_in_grid_pt(path[k + 1]));
                    lemma_touch_neighbor(x, y);
                    let d = choose|d: int| 0 <= d < 4 && #[trigger] spec_neighbor(x, d) == Some(y);
                    assert(spec_unmet_toward(m, b.visited@, a1.queue@[jx].coords, d));
                    assert(false);
                }
            }
        }
    }
}

/// The search from the goal expands one position without meeting the
/// other search: the two searches still keep `spec_meet_inv`.
#[verifier::rlimit(40)]
proof fn lemma_step_b(a: Frontier, b0: Frontier, b1: Frontier, m: Map<(u32, u32), Tile>, unit: (u32, u32), goal: (u32, u32))
    requires
        spec_meet_inv(a, b0, m, unit, goal),
        a.inv(m, unit),
        b0.inv(m, goal),
        b1.inv(m, goal),
        a.head < a.queue@.len(),
        b0.head < b0.queue@.len(),
        a.front() > b0.front(),
        b1.head == b0.head + 1,
        b1.queue@.len() >= b0.queue@.len(),
        b1.queue@.take(b0.queue@.len() as int) == b0.queue@,
        b1.layered(m),
        forall|d: int| 0 <= d < 4 ==> #[trigger] spec_unmet_toward(m, a.visited@, b0.queue@[b0.head as int].coords, d),
        forall|k: (u32, u32)| #[trigger] b1.visited@.contains_key(k) ==> b0.visited@.contains_key(k) || !a.visited@.contains_key(k),
    ensures
        spec_meet_inv(a, b1, m, unit, goal),
{
    reveal(Frontier::layered);
    reveal(Frontier::inv);
    let k = b0.front();
    let h0 = b0.head as int;
    let c = b0.queue@[h0];
    assert forall|i: int| 0 <= i < b0.queue@.len() implies b1.queue@[i] == b0.queue@[i] by {
        assert(b1.queue@.take(b0.queue@.len() as int)[i] == b1.queue@[i]);
    }
    assert(b1.queue@[h0] == c);
    assert(c.cost == k);
    assert(b1.top() == k + 1);
    if b1.head < b1.queue@.len() {
        assert(b1.queue@[b1.head - 1].cost <= b1.queue@[b1.head as int].cost);
    }
    assert(b1.front() == k || b1.front() == k + 1);
    assert forall|i: int, d: int| 0 <= i < b1.head && 0 <= d < 4 && b1.queue@[i].cost == k
        implies #[trigger] spec_unmet_toward(m, a.visited@, b1.queue@[i].coords, d) by {
        if i < h0 {
            assert(b1.queue@[i] == b0.queue@[i]);
            assert(spec_unmet_toward(m, a.visited@, b0.queue@[i].coords, d));
        }
    }
    if a.front() == b1.front() {
        assert forall|i: int, d: int| 0 <= i < a.head && 0 <= d < 4 && a.queue@[i].cost == a.front()
            implies #[trigger] spec_unmet_toward(m, b1.visited@, a.queue@[i].coords, d) by {
            assert(a.queue@[i].cost <= a.queue@[a.head - 1].cost);
        }
    }
    assert forall|q: (u32, u32)| #[trigger] a.visited@.contains_key(q) implies !b1.visited@.contains_key(q) by {
        if b1.visited@.contains_key(q) && b0.visited@.contains_key(q) {
            assert(!b0.visited@.contains_key(q));
        }
    }
    assert(a.head >= 1) by {
        if a.head == 0 {
            assert(a.queue@[0].cost == 0);
        }
    }
    if b1.front() == k + 1 {
        assert forall|path: Seq<(u32, u32)>| #[trigger] spec_route(m, path, unit, goal) && spec_in_grid(path) && path.len() >= 3
            implies path.len() - 1 >= a.front() + b1.front() + 1 by {
            assert(path.len() - 1 >= 2 * k + 2);
            if path.len() - 1 == 2 * k + 2 {
                lemma_split_route(m, path, unit, goal, k + 1);
                let pa = path.take(k + 2);
                let pb = path.skip(k + 2).reverse();
                lemma_reach(&a, m, unit, pa);
                lemma_reach(&b1, m, goal, pb);
                let x = path[k + 1];
                let y = path[k + 2];
                assert(spec_touch(path[k + 1], path[k + 2]));
                assert(spec_open_tile(m, path[k + 1]));
                let jx = choose|j: int| 0 <= j < a.queue@.len() && (#[trigger] a.queue@[j]).coords == x;
                let jy = choose|j: int| 0 <= j < b1.queue@.len() && (#[trigger] b1.queue@[j]).coords == y;
                let cx = a.queue@[jx].cost;
                let cy = b1.queue@[jy].cost;
                assert(a.visited@[x] == cx);
                assert(b1.visited@[y] == cy);
                if cy < k {
                    assert(spec_open_tile(m, path[k + 2]));
                    lemma_join(m, a.paths@[jx], b1.paths@[jy], unit, goal);
                    let r = a.paths@[jx] + b1.paths@[jy].reverse();
                    assert(spec_in_grid_pt(path[0]) && spec_in_grid_pt(path.last()));
                    assert(spec_in_grid(a.paths@[jx]) && spec_in_grid(b1.paths@[jy]));
                    assert(spec_route(m, r, unit, goal) && spec_in_grid(r));
                    if r.len() >= 3 {
                        assert(r.len() - 1 >= a.front() + b0.front() + 1);
                    } else {
                        assert(a.paths@[jx].len() == 1 && b1.paths@[jy].len() == 1);
                        assert(x == unit && y == goal);
                        assert(spec_has_tile(m, goal));
                        assert(spec_in_grid_pt(path[k + 1]) && spec_in_grid_pt(path[k + 2]));
                        lemma_touch_neighbor(x, y);
                        let d = choose|d: int| 0 <= d < 4 && #[trigger] spec_neighbor(x, d) == Some(y);
                        assert(a.queue@[0].coords == unit);
                        assert(spec_neighbor(a.queue@[0].coords, d) != Some(goal));
                    }
                    assert(false);
                } else {
                    if jy >= b1.head && b1.head < b1.queue@.len() {
                        assert(b1.queue@[b1.head as int].cost <= b1.queue@[jy].cost);
                    }
                    assert(jy < b1.head);
                    assert(m.contains_key((x.1, x.0)));
                    assert(spec_in_grid_pt(path[k + 1]) && spec_in_grid_pt(path[k + 2]));
                    lemma_touch_neighbor(y, x);
                    let d = choose|d: int| 0 <= d < 4 && #[trigger] spec_neighbor(y, d) == Some(x);
                    assert(spec_unmet_toward(m, a.visited@, b1.queue@[jy].coords, d));
                    assert(false);
                }
            }
        }
    }
}

/// Expands the next queued position of `own`: each neighbour with a tile
/// that the other search `other` has reached closes the gap, and the
/// distance is returned; otherwise each traversable neighbour not reached
/// yet is queued one step further.
fn expand_one(
    map: &TileMap,
    own: &mut Frontier,
    other: &Frontier,
    Ghost(own_start): Ghost<(u32, u32)>,
    Ghost(other_start): Ghost<(u32, u32)>,
) -> (r: Option<u32>)
    requires
        old(own).inv(map@, own_start),
        other.inv(map@, other_start),
        old(own).head < old(own).queue@.len(),
        old(own).queue@.len() <= map@.dom().len() + 1,
        other.queue@.len() <= map@.dom().len() + 1,
        map@.dom().len() < 0x3fff_ffff,
        old(own).layered(map@),
    ensures
        final(own).inv(map@, own_start),
        final(own).head == old(own).head + 1,
        final(own).queue@.len() >= old(own).queue@.len(),
        r matches Some(d) ==> d > 0 && exists|path: Seq<(u32, u32)>| #[trigger] spec_route(map@, path, own_start, other_start)
            && path.len() == d + 1 && (spec_in_grid_pt(own_start) && spec_in_grid_pt(other_start) ==> spec_in_grid(path)),
        final(own).queue@.take(old(own).queue@.len() as int) == old(own).queue@,
        r is None ==> final(own).layered(map@),
        r is None ==> forall|d: int| 0 <= d < 4 ==> #[trigger] spec_unmet_toward(map@, other.visited@, old(own).queue@[old(own).head as int].coords, d),
        forall|k: (u32, u32)| #[trigger] final(own).visited@.contains_key(k) ==> old(own).visited@.contains_key(k)
            || !other.visited@.contains_key(k),
        r matches Some(v) ==> exists|y: (u32, u32)| #[trigger] other.visited@.contains_key(y)
            && v == old(own).queue@[old(own).head as int].cost + 1 + other.visited@[y],
{
    proof {
        reveal(Frontier::inv);
        reveal(Frontier::layered);
    }
    let ghost m = map@;
    let c = own.queue[own.head];
    let ghost ci = own.head as int;
    let ghost cpath = own.paths@[ci];
    let ghost q_old = own.queue@;
    let ghost v_old = own.visited@;
    proof {
        assert forall|j: int| 0 <= j < q_old.len() implies (#[trigger] q_old[j]).cost <= c.cost + 1 by {
            if ci > 0 {
                assert(q_old[ci - 1].cost <= q_old[ci].cost);
            }
        }
    }
    own.head = own.head + 1;
    let mut dir: u32 = 0;
    while dir < 4
        invariant
            own.inv(m, own_start),
            other.inv(m, other_start),
            m == map@,
            own.head == ci + 1,
            ci == old(own).head,
            own.head <= old(own).queue@.len(),
            own.queue@.len() >= old(own).queue@.len(),
            own.queue@.len() <= old(own).queue@.len() + dir,
            old(own).queue@.len() <= m.dom().len() + 1,
            other.queue@.len() <= m.dom().len() + 1,
            m.dom().len() < 0x3fff_ffff,
            dir <= 4,
            own.queue@[ci] == c,
            own.paths@[ci] == cpath,
            c.cost <= ci,
            spec_half_path(m, cpath, own_start),
            spec_in_grid_pt(own_start) ==> spec_in_grid(cpath),
            cpath.last() == c.coords,
            cpath.len() == c.cost + 1,
            q_old == old(own).queue@,
            v_old == old(own).visited@,
            own.queue@.take(q_old.len() as int) == q_old,
            forall|i: int, j: int| 0 <= i <= j < own.queue@.len() ==> (#[trigger] own.queue@[i]).cost <= (#[trigger] own.queue@[j]).cost,
            forall|j: int| 0 <= j < own.queue@.len() ==> (#[trigger] own.queue@[j]).cost <= c.cost + 1,
            forall|k: (u32, u32)| #[trigger] v_old.contains_key(k) ==> own.visited@.contains_key(k) && own.visited@[k] == v_old[k],
            forall|k: (u32, u32)| #[trigger] own.visited@.contains_key(k) ==> v_old.contains_key(k) || !other.visited@.contains_key(k),
            forall|i: int, d: int| 0 <= i < ci && 0 <= d < 4 ==> #[trigger] spec_closed_toward(m, own.visited@, own.queue@[i], d),
            forall|d: int| 0 <= d < dir ==> #[trigger] spec_closed_toward(m, own.visited@, c, d),
            forall|d: int| 0 <= d < dir ==> #[trigger] spec_unmet_toward(m, other.visited@, c.coords, d),
        decreases 4 - dir,
    {
        proof {
            reveal(Frontier::inv);
        }
        let ghost v_prev = own.visited@;
        let ghost q_prev = own.queue@;
        match neighbor(c.coords, dir) {
            None => {},
            Some(nb) => {
                match map.get((nb.1, nb.0)) {
                    None => {},
                    Some(tile) => {
                        match other.visited.get(nb) {
                            Some(num) => {
                                proof {
                                    let j = choose|j: int| 0 <= j < other.queue@.len() && (#[trigger] other.queue@[j]).coords == nb;
                                    let opath = other.paths@[j];
                                    let path = cpath + opath.reverse();
                                    assert(other.queue@[j].cost == num);
                                    assert(num <= j);
                                    let n1 = cpath.len();
                                    let n2 = opath.len();
                                    assert(spec_touch(c.coords, nb));
                                    assert forall|i: int| 0 < i < path.len() - 1 implies spec_open_tile(m, #[trigger] path[i]) by {
                                        if i < n1 {
                                            assert(path[i] == cpath[i]);
                                        } else {
                                            assert(path[i] == opath[n2 - 1 - (i - n1)]);
                                        }
                                    }
                                    assert forall|i: int| 0 <= i < path.len() - 1 implies spec_touch(#[trigger] path[i], path[i + 1]) by {
                                        if i < n1 - 1 {
                                            assert(path[i] == cpath[i]);
                                            assert(path[i + 1] == cpath[i + 1]);
                                        } else if i == n1 - 1 {
                                            assert(path[i] == cpath.last());
                                            assert(path[i + 1] == opath[n2 - 1]);
                                        } else {
                                            assert(path[i] == opath[n2 - 1 - (i - n1)]);
                                            assert(path[i + 1] == opath[n2 - 2 - (i - n1)]);
                                            assert(spec_touch(opath[n2 - 2 - (i - n1)], opath[n2 - 1 - (i - n1)]));
                                        }
                                    }
                                    assert(path[0] == own_start);
                                    assert(path.last() == opath[0]);
                                    assert(spec_route(m, path, own_start, other_start));
                                    if spec_in_grid_pt(own_start) && spec_in_grid_pt(other_start) {
                                        assert(spec_in_grid(cpath) && spec_in_grid(opath));
                                        assert forall|i: int| 0 <= i < path.len() implies spec_in_grid_pt(#[trigger] path[i]) by {
                                            if i < n1 {
                                                assert(path[i] == cpath[i]);
                                            } else {
                                                assert(path[i] == opath[n2 - 1 - (i - n1)]);
                                            }
                                        }
                                    }
                                }
                                return Some(num + c.cost + 1);
                            },
                            None => {},
                        }
                        if tile.is_traversable && !own.visited.contains_key(nb) {
                            let ghost q0 = own.queue@;
                            let ghost p0 = own.paths@;
                            let nq = QueueObject { coords: nb, cost: c.cost + 1 };
                            own.queue.push(nq);
                            own.visited.insert(nb, c.cost + 1);
                            proof {
                                own.paths@ = p0.push(cpath.push(nb));
                                let q = own.queue@;
                                assert(spec_touch(c.coords, nb));
                                assert(spec_open_tile(m, nb));
                                assert forall|j: int| 0 <= j < q.len() implies own.visited@.contains_key((#[trigger] q[j]).coords)
                                    && own.visited@[q[j].coords] == q[j].cost by {
                                    if j < q0.len() {
                                        assert(q[j] == q0[j]);
                                        assert(q0[j].coords != nb);
                                    }
                                }
                                assert forall|k: (u32, u32)| #[trigger] own.visited@.contains_key(k) implies exists|j: int| 0 <= j < q.len() && (#[trigger] q[j]).coords == k by {
                                    if k == nb {
                                        assert(q[q0.len() as int].coords == k);
                                    } else {
                                        let j = choose|j: int| 0 <= j < q0.len() && (#[trigger] q0[j]).coords == k;
                                        assert(q[j] == q0[j]);
                                    }
                                }
                                assert forall|j1: int, j2: int| 0 <= j1 < q.len() && 0 <= j2 < q.len() && j1 != j2 implies (#[trigger] q[j1]).coords != (#[trigger] q[j2]).coords by {
                                    if j1 < q0.len() && j2 < q0.len() {
                                        assert(q[j1] == q0[j1]);
                                        assert(q[j2] == q0[j2]);
                                    } else if j1 < q0.len() {
                                        assert(q[j1] == q0[j1]);
                                        assert(old(own).visited@.contains_key(q0[j1].coords) || own.visited@.contains_key(q0[j1].coords));
                                    } else if j2 < q0.len() {
                                        assert(q[j2] == q0[j2]);
                                    }
                                }
                                assert forall|j: int| 0 <= j < q.len() implies spec_half_path(m, #[trigger] own.paths@[j], own_start)
                                    && own.paths@[j].last() == q[j].coords && own.paths@[j].len() == q[j].cost + 1 by {
                                    if j < q0.len() {
                                        assert(own.paths@[j] == p0[j]);
                                        assert(q[j] == q0[j]);
                                    } else {
                                        let np = cpath.push(nb);
                                        assert(own.paths@[j] == np);
                                        assert forall|i: int| 0 < i < np.len() implies spec_open_tile(m, #[trigger] np[i]) by {
                                            if i < cpath.len() {
                                                assert(np[i] == cpath[i]);
                                            }
                                        }
                                        assert forall|i: int| 0 <= i < np.len() - 1 implies spec_touch(#[trigger] np[i], np[i + 1]) by {
                                            if i < cpath.len() - 1 {
                                                assert(np[i] == cpath[i]);
                                                assert(np[i + 1] == cpath[i + 1]);
                                            } else {
                                                assert(np[i] == cpath.last());
                                            }
                                        }
                                    }
                                }
                                if spec_in_grid_pt(own_start) {
                                    assert forall|j: int| 0 <= j < q.len() implies spec_in_grid(#[trigger] own.paths@[j]) by {
                                        if j < q0.len() {
                                            assert(own.paths@[j] == p0[j]);
                                        } else {
                                            let np = cpath.push(nb);
                                            assert(own.paths@[j] == np);
                                            assert(spec_in_grid_pt(cpath.last()));
                                            assert forall|i: int| 0 <= i < np.len() implies spec_in_grid_pt(#[trigger] np[i]) by {
                                                if i < cpath.len() {
                                                    assert(np[i] == cpath[i]);
                                                }
                                            }
                                        }
                                    }
                                }
                                assert forall|j: int| 0 <= j < q.len() implies (#[trigger] q[j]).cost <= j by {
                                    if j < q0.len() {
                                        assert(q[j] == q0[j]);
                                    }
                                }
                                assert forall|j: int| 0 <= j < q.len() implies (#[trigger] q[j]).coords == own_start
                                    || m.contains_key((q[j].coords.1, q[j].coords.0)) by {
                                    if j < q0.len() {
                                        assert(q[j] == q0[j]);
                                    }
                                }
                                assert(q[ci] == c);
                                assert forall|k: (u32, u32)| #[trigger] v_prev.contains_key(k) implies own.visited@.contains_key(k)
                                    && own.visited@[k] == v_prev[k] by {
                                    assert(k != nb);
                                }
                                assert(spec_closed_toward(m, own.visited@, c, dir as int));
                            }
                        } else if tile.is_traversable {
                            proof {
                                let j = choose|j: int| 0 <= j < own.queue@.len() && (#[trigger] own.queue@[j]).coords == nb;
                                assert(own.visited@[nb] == own.queue@[j].cost);
                                assert(spec_closed_toward(m, own.visited@, c, dir as int));
                            }
                        }
                    },
                }
            },
        }
        proof {
            assert forall|k: (u32, u32)| #[trigger] v_prev.contains_key(k) implies own.visited@.contains_key(k)
                && own.visited@[k] == v_prev[k] by {
            }
            assert forall|i: int| 0 <= i < q_prev.len() implies own.queue@[i] == q_prev[i] by {
            }
            assert forall|i: int, d: int| 0 <= i < ci && 0 <= d < 4 implies #[trigger] spec_closed_toward(m, own.visited@, own.queue@[i], d) by {
                lemma_closed_mono(m, v_prev, own.visited@, q_prev[i], d);
            }
            assert forall|d: int| 0 <= d < dir + 1 implies #[trigger] spec_closed_toward(m, own.visited@, c, d) by {
                if d < dir {
                    lemma_closed_mono(m, v_prev, own.visited@, c, d);
                }
            }
            assert forall|k: (u32, u32)| #[trigger] v_old.contains_key(k) implies own.visited@.contains_key(k) && own.visited@[k] == v_old[k] by {
                assert(v_prev.contains_key(k));
            }
        }
        dir += 1;
    }
    proof {
        reveal(Frontier::layered);
        assert(own.top() == c.cost + 1);
        assert forall|i: int, d: int| 0 <= i < own.head && 0 <= d < 4 implies #[trigger] spec_closed_toward(m, own.visited@, own.queue@[i], d) by {
            if i == ci {
                assert(own.queue@[i] == c);
            }
        }
    }
    None
}

/// Reached positions are at most one step past the last expanded one.
proof fn lemma_visited_below_top(f: &Frontier, m: Map<(u32, u32), Tile>, s: (u32, u32), k: (u32, u32))
    requires
        f.inv(m, s),
        f.layered(m),
        f.visited@.contains_key(k),
    ensures
        f.visited@[k] <= f.top(),
{
    reveal(Frontier::inv);
    reveal(Frontier::layered);
    let j = choose|j: int| 0 <= j < f.queue@.len() && (#[trigger] f.queue@[j]).coords == k;
    assert(f.visited@[k] == f.queue@[j].cost);
}

/// The number of steps between `unit_pos` and `goal_pos`, searching from
/// both ends at once over traversable tiles, each search taking the next
/// step from whichever end is less far along; 0 for the same position, and 0
/// when the searches run out without meeting. The searches never leave the
/// map's width and height, and the result is the walking distance that
/// `spec_walking_distance` describes: no longer than any route within them
/// of two steps or more, nor of one step to a goal with a tile.
pub fn get_actual_distance_from_goal(unit_pos: (u32, u32), goal_pos: (u32, u32), map: &TileMap) -> (d: u32)
    requires
        map@.dom().len() < 0x3fff_ffff,
    ensures
        spec_walking_distance(map@, unit_pos, goal_pos, d as int),
        d > 0 ==> d >= spec_apart(unit_pos, goal_pos),
{
    if unit_pos.0 == goal_pos.0 && unit_pos.1 == goal_pos.1 {
        return 0;
    }
    let _tile_count = map.len();
    let ghost m = map@;
    let ghost bound = m.dom().len() + 1;
    let mut init = Frontier::start(unit_pos, Ghost(m));
    let mut goal = Frontier::start(goal_pos, Ghost(m));
    proof {
        reveal(Frontier::inv);
        reveal(Frontier::layered);
        assert(init.front() == 0);
        assert(goal.front() == 0);
        assert forall|k: (u32, u32)| #[trigger] init.visited@.contains_key(k) implies !goal.visited@.contains_key(k) by {
            let j = choose|j: int| 0 <= j < init.queue@.len() && (#[trigger] init.queue@[j]).coords == k;
            if goal.visited@.contains_key(k) {
                let j2 = choose|j2: int| 0 <= j2 < goal.queue@.len() && (#[trigger] goal.queue@[j2]).coords == k;
            }
        }
    }
    while init.head < init.queue.len() && goal.head < goal.queue.len()
        invariant
            unit_pos != goal_pos,
            m == map@,
            m.dom().finite(),
            bound == m.dom().len() + 1,
            m.dom().len() < 0x3fff_ffff,
            init.inv(m, unit_pos),
            goal.inv(m, goal_pos),
            init.queue@.len() <= bound,
            goal.queue@.len() <= bound,
            spec_meet_inv(init, goal, m, unit_pos, goal_pos),
        decreases (2 * bound - init.queue@.len() - init.head) + (2 * bound - goal.queue@.len() - goal.head),
    {
        if init.queue[init.head].cost > goal.queue[goal.head].cost {
            let ghost b0 = goal;
            match expand_one(map, &mut goal, &init, Ghost(goal_pos), Ghost(unit_pos)) {
                Some(d) => {
                    proof {
                        let path = choose|path: Seq<(u32, u32)>| #[trigger] spec_route(m, path, goal_pos, unit_pos)
                            && path.len() == d + 1 && (spec_in_grid_pt(goal_pos) && spec_in_grid_pt(unit_pos) ==> spec_in_grid(path));
                        lemma_route_reverse(m, path, goal_pos, unit_pos);
                        assert(spec_route(m, path.reverse(), unit_pos, goal_pos));
                        if spec_in_grid_pt(goal_pos) && spec_in_grid_pt(unit_pos) {
                            assert forall|i: int| 0 <= i < path.reverse().len() implies spec_in_grid_pt(#[trigger] path.reverse()[i]) by {
                                assert(path.reverse()[i] == path[path.len() - 1 - i]);
                            }
                        }
                        lemma_route_at_least_apart(m, path.reverse(), unit_pos, goal_pos);
                        let y = choose|y: (u32, u32)| #[trigger] init.visited@.contains_key(y)
                            && d == b0.queue@[b0.head as int].cost + 1 + init.visited@[y];
                        lemma_visited_below_top(&init, m, unit_pos, y);
                        assert(d <= init.front() + b0.front() + 1);
                        assert(init.head >= 1) by {
                            reveal(Frontier::inv);
                            if init.head == 0 {
                                assert(init.queue@[0].cost == 0);
                            }
                        }
                        assert forall|p: Seq<(u32, u32)>| #[trigger] spec_route(m, p, unit_pos, goal_pos) && spec_in_grid(p)
                            && (p.len() >= 3 || spec_has_tile(m, goal_pos)) implies p.len() - 1 >= d by {
                            if p.len() < 3 {
                                lemma_no_short_route(init, m, unit_pos, goal_pos, p);
                            }
                        }
                    }
                    return d;
                },
                None => {
                    proof {
                        lemma_step_b(init, b0, goal, m, unit_pos, goal_pos);
                    }
                },
            }
        } else {
            let ghost a0 = init;
            match expand_one(map, &mut init, &goal, Ghost(unit_pos), Ghost(goal_pos)) {
                Some(d) => {
                    proof {
                        let path = choose|path: Seq<(u32, u32)>| #[trigger] spec_route(m, path, unit_pos, goal_pos)
                            && path.len() == d + 1 && (spec_in_grid_pt(unit_pos) && spec_in_grid_pt(goal_pos) ==> spec_in_grid(path));
                        lemma_route_at_least_apart(m, path, unit_pos, goal_pos);
                        let y = choose|y: (u32, u32)| #[trigger] goal.visited@.contains_key(y)
                            && d == a0.queue@[a0.head as int].cost + 1 + goal.visited@[y];
                        lemma_visited_below_top(&goal, m, goal_pos, y);
                        assert(d <= a0.front() + goal.front() + 1);
                        assert forall|p: Seq<(u32, u32)>| #[trigger] spec_route(m, p, unit_pos, goal_pos) && spec_in_grid(p)
                            && (p.len() >= 3 || spec_has_tile(m, goal_pos)) implies p.len() - 1 >= d by {
                            if p.len() < 3 {
                                if a0.head >= 1 {
                                    lemma_no_short_route(a0, m, unit_pos, goal_pos, p);
                                } else {
                                    reveal(Frontier::inv);
                                    assert(a0.queue@[0].cost == 0);
                                }
                            }
                        }
                    }
                    return d;
                },
                None => {
                    proof {
                        lemma_step_a(a0, init, goal, m, unit_pos, goal_pos);
                    }
                },
            }
        }
        proof {
            lemma_frontier_bound(&init, m, unit_pos);
            lemma_frontier_bound(&goal, m, goal_pos);
        }
    }
    proof {
        reveal(Frontier::inv);
        reveal(Frontier::layered);
        assert(init.head >= 1) by {
            if init.head == 0 {
                assert(init.queue@[0].cost == 0);
                assert(goal.head == goal.queue@.len());
                assert(goal.queue@[goal.head - 1].cost <= goal.queue@[goal.head - 1].cost);
            }
        }
        assert forall|p: Seq<(u32, u32)>| #[trigger] spec_route(m, p, unit_pos, goal_pos) && spec_in_grid(p)
            && (p.len() >= 3 || spec_has_tile(m, goal_pos)) implies false by {
            if p.len() >= 3 {
                lemma_no_route_missed(&init, &goal, m, unit_pos, goal_pos, p);
            } else {
                lemma_no_short_route(init, m, unit_pos, goal_pos, p);
            }
        }
    }
    0
}

/// Once one of the searches has run out without meeting the other, there
/// is no route of two steps or more between the two ends within the map's
/// width and height.
proof fn lemma_no_route_missed(a: &Frontier, b: &Frontier, m: Map<(u32, u32), Tile>, unit: (u32, u32), goal: (u32, u32), path: Seq<(u32, u32)>)
    requires
        a.inv(m, unit),
        b.inv(m, goal),
        spec_meet_inv(*a, *b, m, unit, goal),
        a.head == a.queue@.len() || b.head == b.queue@.len(),
    ensures
        !(spec_route(m, path, unit, goal) && spec_in_grid(path) && path.len() >= 3),
{
    if spec_route(m, path, unit, goal) && spec_in_grid(path) && path.len() >= 3 {
        reveal(Frontier::inv);
        reveal(Frontier::layered);
        let n = path.len() - 1;
        if a.head == a.queue@.len() {
            if b.head >= 1 {
                // The goal has been expanded: the last step's start is reached by both searches.
                lemma_split_route(m, path, unit, goal, n - 1);
                let pa = path.take(n);
                lemma_reach(a, m, unit, pa);
                let x = path[n - 1];
                assert(spec_open_tile(m, path[n - 1]));
                assert(spec_touch(path[n - 1], path[n]));
                assert(spec_in_grid_pt(path[n - 1]) && spec_in_grid_pt(path[n]));
                lemma_touch_neighbor(goal, x);
                let d = choose|d: int| 0 <= d < 4 && #[trigger] spec_neighbor(goal, d) == Some(x);
                assert(b.queue@[0].coords == goal);
                assert(spec_closed_toward(m, b.visited@, b.queue@[0], d));
                assert(b.visited@.contains_key(x));
            } else {
                // Only the unit's start was expanded: the route's first step was reached at cost 0.
                assert(b.front() == 0);
                assert(a.front() <= 1);
                let h = a.head - 1;
                assert(a.queue@[h].cost == 0);
                let y = path[1];
                assert(spec_open_tile(m, path[1]));
                assert(spec_touch(path[0], path[1]));
                assert(spec_in_grid_pt(path[0]) && spec_in_grid_pt(path[1]));
                lemma_touch_neighbor(unit, y);
                let d = choose|d: int| 0 <= d < 4 && #[trigger] spec_neighbor(unit, d) == Some(y);
                assert(a.queue@[0].coords == unit);
                assert(spec_closed_toward(m, a.visited@, a.queue@[0], d));
                let j = choose|j: int| 0 <= j < a.queue@.len() && (#[trigger] a.queue@[j]).coords == y;
                assert(a.queue@[j].cost <= a.queue@[h].cost);
                assert(a.paths@[j].len() == 1);
                assert(a.paths@[j][0] == unit);
            }
        } else {
            // The goal's search ran out, and the unit's start was expanded:
            // the route's first step is reached by both searches.
            assert(a.head >= 1) by {
                if a.head == 0 {
                    assert(a.queue@[0].cost == 0);
                }
            }
            lemma_split_route(m, path, unit, goal, 0);
            let pb = path.skip(1).reverse();
            lemma_reach(b, m, goal, pb);
            let y = path[1];
            assert(spec_open_tile(m, path[1]));
            assert(spec_touch(path[0], path[1]));
            assert(spec_in_grid_pt(path[0]) && spec_in_grid_pt(path[1]));
            lemma_touch_neighbor(unit, y);
            let d = choose|d: int| 0 <= d < 4 && #[trigger] spec_neighbor(unit, d) == Some(y);
            assert(a.queue@[0].coords == unit);
            assert(spec_closed_toward(m, a.visited@, a.queue@[0], d));
            assert(a.visited@.contains_key(y));
        }
    }
}

} // verus!
