//! Castles and barbarian camps, and how many turns a team has held them.

use vstd::prelude::*;
use crate::team::Team;
use crate::tile_map::PosMap;
use crate::unit::Unit;
use crate::unit_map::UnitMap;

verus! {

/// Holding an objective this many turns captures it.
pub const TURNS_TO_CAPTURE: u32 = 3;

/// Whether some unit of `units` stands on the 2x2 camp whose top left tile is `camp`.
pub open spec fn spec_camp_occupied(units: Map<(u32, u32), Unit>, camp: (u32, u32)) -> bool {
    ||| units.contains_key(camp)
    ||| units.contains_key(((camp.0 + 1) as u32, camp.1))
    ||| units.contains_key((camp.0, (camp.1 + 1) as u32))
    ||| units.contains_key(((camp.0 + 1) as u32, (camp.1 + 1) as u32))
}

/// Whether the camp at `camp` has no holder in `teams`: no entry, or an
/// entry that holds no team.
pub open spec fn spec_camp_unheld(teams: Map<(u32, u32), Option<Team>>, camp: (u32, u32)) -> bool {
    !teams.contains_key(camp) || teams[camp] is None
}

/// The turn counts and holders of the camps after `team`, whose units are
/// `units`, has been checked against `camp`: holding it counts one more turn
/// (and the first team to hold a camp without a holder becomes its holder);
/// a camp without a holder that is not held has its count set to zero, so
/// that the count is of consecutive turns.
pub open spec fn spec_camp_step(
    turns: Map<(u32, u32), u32>,
    teams: Map<(u32, u32), Option<Team>>,
    camp: (u32, u32),
    occupied: bool,
    team: Team,
) -> (Map<(u32, u32), u32>, Map<(u32, u32), Option<Team>>) {
    if occupied {
        (
            turns.insert(camp, (turns[camp] + 1) as u32),
            if spec_camp_unheld(teams, camp) { teams.insert(camp, Some(team)) } else { teams },
        )
    } else if spec_camp_unheld(teams, camp) {
        (turns.insert(camp, 0), teams)
    } else {
        (turns, teams)
    }
}

/// The turn counts and holders after checking every camp of `camps` in order.
pub open spec fn spec_camps_fold(
    camps: Seq<(u32, u32)>,
    turns: Map<(u32, u32), u32>,
    teams: Map<(u32, u32), Option<Team>>,
    units: Map<(u32, u32), Unit>,
    team: Team,
) -> (Map<(u32, u32), u32>, Map<(u32, u32), Option<Team>>)
    decreases camps.len(),
{
    if camps.len() == 0 {
        (turns, teams)
    } else {
        let prev = spec_camps_fold(camps.drop_last(), turns, teams, units, team);
        spec_camp_step(prev.0, prev.1, camps.last(), spec_camp_occupied(units, camps.last()), team)
    }
}

/// The camps of `camps` whose turn count in `turns` reached the capture threshold.
pub open spec fn spec_captured(camps: Seq<(u32, u32)>, turns: Map<(u32, u32), u32>) -> Set<(u32, u32)> {
    Set::new(|c: (u32, u32)| camps.contains(c) && turns[c] >= TURNS_TO_CAPTURE)
}

pub struct ObjectiveManager {
    pub p1_castle: (u32, u32),
    pub p1_castle_turns: u32,
    pub p2_castle: (u32, u32),
    pub p2_castle_turns: u32,
    pub barbarian_camps: Vec<(u32, u32)>,
    /// How many turns each camp has been held.
    pub barbarian_camps_turns: PosMap<u32>,
    /// Which team is holding each camp.
    pub barbarian_camps_teams: PosMap<Option<Team>>,
}

/// What checking the objectives for `team`, whose units are `units`, makes of
/// `before`: the enemy on the player's castle and the player on the enemy's
/// castle count one more turn (a castle not held has its count reset); each
/// camp is checked in turn for the player or enemy side, and camps held for
/// the capture threshold are taken off the list.
pub open spec fn spec_objectives_checked(
    before: ObjectiveManager,
    after: ObjectiveManager,
    team: Team,
    units: Map<(u32, u32), Unit>,
) -> bool {
    &&& after.p1_castle == before.p1_castle
    &&& after.p2_castle == before.p2_castle
    &&& after.p1_castle_turns == (if team == Team::Enemy {
        if units.contains_key(before.p1_castle) { (before.p1_castle_turns + 1) as u32 } else { 0 }
    } else {
        before.p1_castle_turns
    })
    &&& after.p2_castle_turns == (if team == Team::Player {
        if units.contains_key(before.p2_castle) { (before.p2_castle_turns + 1) as u32 } else { 0 }
    } else {
        before.p2_castle_turns
    })
    &&& team == Team::Barbarians ==> {
        &&& after.barbarian_camps@ == before.barbarian_camps@
        &&& after.barbarian_camps_turns@ == before.barbarian_camps_turns@
        &&& after.barbarian_camps_teams@ == before.barbarian_camps_teams@
    }
    &&& team != Team::Barbarians ==> {
        let f = spec_camps_fold(before.barbarian_camps@, before.barbarian_camps_turns@,
            before.barbarian_camps_teams@, units, team);
        let cap = spec_captured(before.barbarian_camps@, f.0);
        &&& after.barbarian_camps@ == before.barbarian_camps@.filter(|c: (u32, u32)| !cap.contains(c))
        &&& after.barbarian_camps_turns@ == f.0.remove_keys(cap)
        &&& after.barbarian_camps_teams@ == f.1.remove_keys(cap)
    }
}

/// The castle `team` has to take: the enemy takes the player's castle, the
/// player the enemy's.
pub open spec fn spec_target_castle(o: ObjectiveManager, team: Team) -> (u32, u32) {
    if team == Team::Enemy { o.p1_castle } else { o.p2_castle }
}

/// Holding the opponent's castle at three checks in a row wins: when the
/// units of the player (or the enemy) stand on the other side's castle each
/// time their objectives are checked, three times running, that side has won.
pub proof fn lemma_castle_capture(
    o0: ObjectiveManager,
    o1: ObjectiveManager,
    o2: ObjectiveManager,
    o3: ObjectiveManager,
    team: Team,
    u0: Map<(u32, u32), Unit>,
    u1: Map<(u32, u32), Unit>,
    u2: Map<(u32, u32), Unit>,
)
    requires
        team != Team::Barbarians,
        o0.p1_castle_turns <= u32::MAX - 3,
        o0.p2_castle_turns <= u32::MAX - 3,
        spec_objectives_checked(o0, o1, team, u0),
        spec_objectives_checked(o1, o2, team, u1),
        spec_objectives_checked(o2, o3, team, u2),
        u0.contains_key(spec_target_castle(o0, team)),
        u1.contains_key(spec_target_castle(o1, team)),
        u2.contains_key(spec_target_castle(o2, team)),
    ensures
        spec_has_won(o3, team),
{
}

/// Checking camps only ever enters the checked camps in the turn counts and
/// holders: the keys after the fold are those before, with the camps added.
proof fn lemma_fold_keys(
    camps: Seq<(u32, u32)>,
    turns: Map<(u32, u32), u32>,
    teams: Map<(u32, u32), Option<Team>>,
    units: Map<(u32, u32), Unit>,
    team: Team,
)
    ensures
        forall|c: (u32, u32)| turns.contains_key(c) ==> #[trigger] spec_camps_fold(camps, turns, teams, units, team).0.contains_key(c),
        forall|c: (u32, u32)| #[trigger] spec_camps_fold(camps, turns, teams, units, team).0.contains_key(c)
            ==> turns.contains_key(c) || camps.contains(c),
        forall|c: (u32, u32)| teams.contains_key(c) ==> #[trigger] spec_camps_fold(camps, turns, teams, units, team).1.contains_key(c),
        forall|c: (u32, u32)| #[trigger] spec_camps_fold(camps, turns, teams, units, team).1.contains_key(c)
            ==> teams.contains_key(c) || camps.contains(c),
    decreases camps.len(),
{
    if camps.len() > 0 {
        let pre = camps.drop_last();
        lemma_fold_keys(pre, turns, teams, units, team);
        assert forall|c: (u32, u32)| pre.contains(c) implies camps.contains(c) by {
            let j = choose|j: int| 0 <= j < pre.len() && pre[j] == c;
            assert(camps[j] == c);
        }
        assert(camps.contains(camps.last())) by {
            assert(camps[camps.len() - 1] == camps.last());
        }
        let prev = spec_camps_fold(pre, turns, teams, units, team);
        let cur = spec_camps_fold(camps, turns, teams, units, team);
        let last = camps.last();
        assert(cur == spec_camp_step(prev.0, prev.1, last, spec_camp_occupied(units, last), team));
        assert forall|c: (u32, u32)| #[trigger] cur.0.contains_key(c) implies prev.0.contains_key(c) || c == last by {}
        assert forall|c: (u32, u32)| prev.0.contains_key(c) implies #[trigger] cur.0.contains_key(c) by {}
        assert forall|c: (u32, u32)| #[trigger] cur.1.contains_key(c) implies prev.1.contains_key(c) || c == last by {}
        assert forall|c: (u32, u32)| prev.1.contains_key(c) implies #[trigger] cur.1.contains_key(c) by {}
    }
}

/// The camps after a check of the objectives for the player or the enemy,
/// when the turn counts and holders are keyed by exactly the listed camps:
/// with `n` the turn counts once each camp has been checked, the camps left
/// are those listed before whose count is below the capture threshold, in
/// the same order; each keeps its count from `n`; and the turn counts and
/// holders are keyed by exactly the camps left.
pub proof fn lemma_camps_after_check(
    before: ObjectiveManager,
    after: ObjectiveManager,
    team: Team,
    units: Map<(u32, u32), Unit>,
)
    requires
        team != Team::Barbarians,
        spec_objectives_checked(before, after, team, units),
        forall|c: (u32, u32)| #[trigger] before.barbarian_camps_turns@.contains_key(c) <==> before.barbarian_camps@.contains(c),
        forall|c: (u32, u32)| #[trigger] before.barbarian_camps_teams@.contains_key(c) <==> before.barbarian_camps@.contains(c),
    ensures
        forall|c: (u32, u32)| #[trigger] after.barbarian_camps_turns@.contains_key(c) <==> after.barbarian_camps@.contains(c),
        forall|c: (u32, u32)| #[trigger] after.barbarian_camps_teams@.contains_key(c) <==> after.barbarian_camps@.contains(c),
        ({
            let n = spec_camps_fold(before.barbarian_camps@, before.barbarian_camps_turns@,
                before.barbarian_camps_teams@, units, team).0;
            &&& after.barbarian_camps@ == before.barbarian_camps@.filter(
                |c: (u32, u32)| !spec_captured(before.barbarian_camps@, n).contains(c))
            &&& forall|c: (u32, u32)| #[trigger] after.barbarian_camps@.contains(c)
                <==> before.barbarian_camps@.contains(c) && n[c] < TURNS_TO_CAPTURE
            &&& forall|c: (u32, u32)| #[trigger] after.barbarian_camps@.contains(c) ==> after.barbarian_camps_turns@[c] == n[c]
        }),
{
    let camps = before.barbarian_camps@;
    let f = spec_camps_fold(camps, before.barbarian_camps_turns@, before.barbarian_camps_teams@, units, team);
    let cap = spec_captured(camps, f.0);
    let keep = |c: (u32, u32)| !cap.contains(c);
    lemma_fold_keys(camps, before.barbarian_camps_turns@, before.barbarian_camps_teams@, units, team);
    assert(after.barbarian_camps@ == camps.filter(keep));
    assert forall|c: (u32, u32)| #[trigger] after.barbarian_camps@.contains(c) <==> (camps.contains(c) && !cap.contains(c)) by {
        if after.barbarian_camps@.contains(c) {
            camps.lemma_filter_contains_rev(keep, c);
            let i = choose|i: int| 0 <= i < camps.filter(keep).len() && camps.filter(keep)[i] == c;
            camps.lemma_filter_pred(keep, i);
        }
        if camps.contains(c) && !cap.contains(c) {
            let i = choose|i: int| 0 <= i < camps.len() && camps[i] == c;
            camps.lemma_filter_contains(keep, i);
        }
    }
    assert forall|c: (u32, u32)| #[trigger] after.barbarian_camps_turns@.contains_key(c) <==> after.barbarian_camps@.contains(c) by {
        assert(after.barbarian_camps_turns@.contains_key(c) <==> (f.0.contains_key(c) && !cap.contains(c)));
    }
    assert forall|c: (u32, u32)| #[trigger] after.barbarian_camps_teams@.contains_key(c) <==> after.barbarian_camps@.contains(c) by {
        assert(after.barbarian_camps_teams@.contains_key(c) <==> (f.1.contains_key(c) && !cap.contains(c)));
    }
}

/// Checking camps other than `c` leaves the turn count and holder of `c` alone.
proof fn lemma_fold_skips(
    camps: Seq<(u32, u32)>,
    turns: Map<(u32, u32), u32>,
    teams: Map<(u32, u32), Option<Team>>,
    units: Map<(u32, u32), Unit>,
    team: Team,
    c: (u32, u32),
)
    requires
        !camps.contains(c),
    ensures
        spec_camps_fold(camps, turns, teams, units, team).0.contains_key(c) == turns.contains_key(c),
        spec_camps_fold(camps, turns, teams, units, team).0[c] == turns[c],
        spec_camps_fold(camps, turns, teams, units, team).1.contains_key(c) == teams.contains_key(c),
        spec_camps_fold(camps, turns, teams, units, team).1[c] == teams[c],
    decreases camps.len(),
{
    if camps.len() > 0 {
        let pre = camps.drop_last();
        assert(!pre.contains(c)) by {
            if pre.contains(c) {
                let j = choose|j: int| 0 <= j < pre.len() && pre[j] == c;
                assert(camps[j] == c);
            }
        }
        assert(camps.last() != c) by {
            assert(camps[camps.len() - 1] == camps.last());
        }
        lemma_fold_skips(pre, turns, teams, units, team, c);
    }
}

/// Checking a list of camps in which `c` is listed once counts `c` as one
/// check of it alone: one more turn when a unit stands on one of its four
/// tiles (making the team its holder if it had none), and back to zero when
/// none does and it has no holder.
proof fn lemma_fold_once(
    camps: Seq<(u32, u32)>,
    turns: Map<(u32, u32), u32>,
    teams: Map<(u32, u32), Option<Team>>,
    units: Map<(u32, u32), Unit>,
    team: Team,
    c: (u32, u32),
    i: int,
)
    requires
        0 <= i < camps.len(),
        camps[i] == c,
        forall|j: int| 0 <= j < camps.len() && j != i ==> camps[j] != c,
    ensures
        ({
            let f = spec_camps_fold(camps, turns, teams, units, team);
            let g = spec_camp_step(turns, teams, c, spec_camp_occupied(units, c), team);
            &&& f.0.contains_key(c) == g.0.contains_key(c)
            &&& f.0[c] == g.0[c]
            &&& f.1.contains_key(c) == g.1.contains_key(c)
            &&& f.1[c] == g.1[c]
        }),
    decreases camps.len(),
{
    let pre = camps.drop_last();
    if i == camps.len() - 1 {
        assert(!pre.contains(c)) by {
            if pre.contains(c) {
                let j = choose|j: int| 0 <= j < pre.len() && pre[j] == c;
                assert(camps[j] == c);
            }
        }
        lemma_fold_skips(pre, turns, teams, units, team, c);
    } else {
        assert(pre[i] == c);
        assert forall|j: int| 0 <= j < pre.len() && j != i implies pre[j] != c by {
            assert(pre[j] == camps[j]);
        }
        lemma_fold_once(pre, turns, teams, units, team, c, i);
        assert(camps.last() != c) by {
            assert(camps[camps.len() - 1] == camps.last());
        }
    }
}

/// What checking the objectives does to a camp `c` listed once: with `occ`
/// whether some unit of the checked team stands on one of its four tiles
/// (`c`, one to the right, one below, and diagonally below right), its count
/// goes one up when occupied, to zero when not occupied and held by no
/// team, and stays otherwise; a first occupier of a camp held by no team
/// becomes its holder; and a camp whose count reaches the capture threshold
/// leaves the list, while any other keeps its count and holder.
pub proof fn lemma_camp_checked(
    before: ObjectiveManager,
    after: ObjectiveManager,
    team: Team,
    units: Map<(u32, u32), Unit>,
    c: (u32, u32),
    i: int,
)
    requires
        team != Team::Barbarians,
        spec_objectives_checked(before, after, team, units),
        0 <= i < before.barbarian_camps@.len(),
        before.barbarian_camps@[i] == c,
        forall|j: int| 0 <= j < before.barbarian_camps@.len() && j != i ==> before.barbarian_camps@[j] != c,
        before.barbarian_camps_turns@.contains_key(c),
        before.barbarian_camps_turns@[c] < u32::MAX,
        c.0 < u32::MAX,
        c.1 < u32::MAX,
    ensures
        ({
            let occ = units.contains_key(c) || units.contains_key(((c.0 + 1) as u32, c.1))
                || units.contains_key((c.0, (c.1 + 1) as u32)) || units.contains_key(((c.0 + 1) as u32, (c.1 + 1) as u32));
            let unheld = !before.barbarian_camps_teams@.contains_key(c) || before.barbarian_camps_teams@[c] is None;
            let n: int = if occ { before.barbarian_camps_turns@[c] + 1 } else if unheld { 0 } else { before.barbarian_camps_turns@[c] as int };
            &&& n >= TURNS_TO_CAPTURE ==> !after.barbarian_camps@.contains(c)
                && !after.barbarian_camps_turns@.contains_key(c)
            &&& n < TURNS_TO_CAPTURE ==> {
                &&& after.barbarian_camps@.contains(c)
                &&& after.barbarian_camps_turns@.contains_key(c)
                &&& after.barbarian_camps_turns@[c] == n
                &&& (occ && unheld) ==> after.barbarian_camps_teams@.contains_key(c)
                    && after.barbarian_camps_teams@[c] == Some(team)
                &&& !(occ && unheld) ==> after.barbarian_camps_teams@.contains_key(c) == before.barbarian_camps_teams@.contains_key(c)
                &&& !(occ && unheld) && before.barbarian_camps_teams@.contains_key(c)
                    ==> after.barbarian_camps_teams@[c] == before.barbarian_camps_teams@[c]
            }
        }),
{
    let camps = before.barbarian_camps@;
    let t0 = before.barbarian_camps_turns@;
    let h0 = before.barbarian_camps_teams@;
    lemma_fold_once(camps, t0, h0, units, team, c, i);
    let f = spec_camps_fold(camps, t0, h0, units, team);
    let cap = spec_captured(camps, f.0);
    let keep = |x: (u32, u32)| !cap.contains(x);
    assert(camps.contains(c)) by {
        assert(camps[i] == c);
    }
    let occ = spec_camp_occupied(units, c);
    let g = spec_camp_step(t0, h0, c, occ, team);
    assert(f.0[c] == g.0[c] && f.0.contains_key(c) && f.1.contains_key(c) == g.1.contains_key(c) && f.1[c] == g.1[c]);
    assert(cap.contains(c) <==> f.0[c] >= TURNS_TO_CAPTURE);
    assert(after.barbarian_camps_turns@ == f.0.remove_keys(cap));
    assert(after.barbarian_camps_teams@ == f.1.remove_keys(cap));
    if !cap.contains(c) {
        assert(after.barbarian_camps_turns@.contains_key(c) && after.barbarian_camps_turns@[c] == f.0[c]);
        assert(after.barbarian_camps_teams@.contains_key(c) == f.1.contains_key(c));
        if f.1.contains_key(c) {
            assert(after.barbarian_camps_teams@[c] == f.1[c]);
        }
    }
    assert(after.barbarian_camps@ == camps.filter(keep));
    if cap.contains(c) {
        if after.barbarian_camps@.contains(c) {
            camps.lemma_filter_contains_rev(keep, c);
            let j = choose|j: int| 0 <= j < camps.filter(keep).len() && camps.filter(keep)[j] == c;
            camps.lemma_filter_pred(keep, j);
        }
    } else {
        camps.lemma_filter_contains(keep, i);
    }
}

/// Whether `team` has held its opponent's castle for the capture threshold;
/// barbarians never win this way.
pub open spec fn spec_has_won(o: ObjectiveManager, team: Team) -> bool {
    match team {
        Team::Player => o.p2_castle_turns >= TURNS_TO_CAPTURE,
        Team::Enemy => o.p1_castle_turns >= TURNS_TO_CAPTURE,
        Team::Barbarians => false,
    }
}

impl ObjectiveManager {
    /// Every listed camp has a turn count below the capture threshold and a
    /// holder entry, and the list is not absurdly long.
    pub open spec fn wf(&self) -> bool {
        &&& self.barbarian_camps@.len() <= u32::MAX - 3
        &&& forall|i: int| 0 <= i < self.barbarian_camps@.len() ==> {
            let c = #[trigger] self.barbarian_camps@[i];
            &&& self.barbarian_camps_turns@.contains_key(c)
            &&& self.barbarian_camps_turns@[c] < TURNS_TO_CAPTURE
            &&& self.barbarian_camps_teams@.contains_key(c)
        }
    }

    /// A placeholder before the objectives of a map are known: both castles at
    /// (0, 0) and no camps.
    pub fn init_default() -> (m: ObjectiveManager)
        ensures
            m.wf(),
            m.p1_castle == (0u32, 0u32),
            m.p1_castle_turns == 0,
            m.p2_castle == (0u32, 0u32),
            m.p2_castle_turns == 0,
            m.barbarian_camps@.len() == 0,
            m.barbarian_camps_turns@ == Map::<(u32, u32), u32>::empty(),
            m.barbarian_camps_teams@ == Map::<(u32, u32), Option<Team>>::empty(),
    {
        ObjectiveManager {
            p1_castle: (0, 0),
            p1_castle_turns: 0,
            p2_castle: (0, 0),
            p2_castle_turns: 0,
            barbarian_camps: Vec::new(),
            barbarian_camps_turns: PosMap::new(),
            barbarian_camps_teams: PosMap::new(),
        }
    }

    /// The objectives of a map: the two castles and the camps, none of them held yet.
    pub fn new(p1_castle_location: (u32, u32), p2_castle_location: (u32, u32), barb_camp_locations: Vec<(u32, u32)>) -> (m: ObjectiveManager)
        requires
            barb_camp_locations@.len() <= u32::MAX - 3,
        ensures
            m.wf(),
            m.p1_castle == p1_castle_location,
            m.p1_castle_turns == 0,
            m.p2_castle == p2_castle_location,
            m.p2_castle_turns == 0,
            m.barbarian_camps@ == barb_camp_locations@,
            m.barbarian_camps_turns@ == Map::new(|c: (u32, u32)| barb_camp_locations@.contains(c), |c: (u32, u32)| 0u32),
            m.barbarian_camps_teams@ == Map::new(|c: (u32, u32)| barb_camp_locations@.contains(c), |c: (u32, u32)| None::<Team>),
    {
        let mut turns: PosMap<u32> = PosMap::new();
        let mut teams: PosMap<Option<Team>> = PosMap::new();
        let mut i: usize = 0;
        while i < barb_camp_locations.len()
            invariant
                0 <= i <= barb_camp_locations@.len(),
                turns@ == Map::new(|c: (u32, u32)| barb_camp_locations@.take(i as int).contains(c), |c: (u32, u32)| 0u32),
                teams@ == Map::new(|c: (u32, u32)| barb_camp_locations@.take(i as int).contains(c), |c: (u32, u32)| None::<Team>),
            decreases barb_camp_locations@.len() - i,
        {
            let camp = barb_camp_locations[i];
            turns.insert(camp, 0);
            teams.insert(camp, None);
            proof {
                let s = barb_camp_locations@;
                let t1 = s.take(i + 1);
                let t0 = s.take(i as int);
                assert(t1 == t0.push(camp));
                assert forall|c: (u32, u32)| t1.contains(c) <==> (t0.contains(c) || c == camp) by {
                    if t1.contains(c) {
                        let j = choose|j: int| 0 <= j < t1.len() && t1[j] == c;
                        if j < i {
                            assert(t0[j] == c);
                        }
                    }
                    if t0.contains(c) {
                        let j = choose|j: int| 0 <= j < t0.len() && t0[j] == c;
                        assert(t1[j] == c);
                    }
                    if c == camp {
                        assert(t1[i as int] == c);
                    }
                }
                assert(turns@ =~= Map::new(|c: (u32, u32)| s.take(i + 1).contains(c), |c: (u32, u32)| 0u32));
                assert(teams@ =~= Map::new(|c: (u32, u32)| s.take(i + 1).contains(c), |c: (u32, u32)| None::<Team>));
            }
            i += 1;
        }
        assert(barb_camp_locations@.take(i as int) =~= barb_camp_locations@);
        let m = ObjectiveManager {
            p1_castle: p1_castle_location,
            p1_castle_turns: 0,
            p2_castle: p2_castle_location,
            p2_castle_turns: 0,
            barbarian_camps: barb_camp_locations,
            barbarian_camps_turns: turns,
            barbarian_camps_teams: teams,
        };
        assert forall|i: int| 0 <= i < m.barbarian_camps@.len() implies {
            let c = #[trigger] m.barbarian_camps@[i];
            &&& m.barbarian_camps_turns@.contains_key(c)
            &&& m.barbarian_camps_turns@[c] < TURNS_TO_CAPTURE
            &&& m.barbarian_camps_teams@.contains_key(c)
        } by {
            assert(m.barbarian_camps@.contains(m.barbarian_camps@[i]));
        }
        m
    }

    /// Whether some unit of `team_units` stands on the 2x2 camp at `camp_coord`.
    fn camp_is_occupied_by_team(camp_coord: &(u32, u32), team_units: &UnitMap) -> (b: bool)
        requires
            camp_coord.0 < u32::MAX,
            camp_coord.1 < u32::MAX,
        ensures
            b == spec_camp_occupied(team_units@, *camp_coord),
    {
        team_units.contains_key(*camp_coord) || team_units.contains_key((camp_coord.0 + 1, camp_coord.1))
            || team_units.contains_key((camp_coord.0, camp_coord.1 + 1)) || team_units.contains_key(
            (camp_coord.0 + 1, camp_coord.1 + 1),
        )
    }

    /// Whether the camp at `camp` has no holder in `teams`.
    fn camp_unheld(teams: &PosMap<Option<Team>>, camp: (u32, u32)) -> (b: bool)
        ensures
            b == spec_camp_unheld(teams@, camp),
    {
        match teams.get(camp) {
            Some(Some(_)) => false,
            _ => true,
        }
    }

    /// Counts one more turn on every objective `team` holds with `team_units`:
    /// the enemy on the player's castle, the player on the enemy's castle
    /// (a castle not held has its count reset), and either of them on a camp.
    /// Camps held for the capture threshold are taken off the list.
    pub fn check_objectives(&mut self, team: Team, team_units: &UnitMap)
        requires
            old(self).wf(),
            team == Team::Enemy ==> old(self).p1_castle_turns < u32::MAX,
            team == Team::Player ==> old(self).p2_castle_turns < u32::MAX,
            team != Team::Barbarians ==> forall|i: int| 0 <= i < old(self).barbarian_camps@.len()
                ==> (#[trigger] old(self).barbarian_camps@[i]).0 < u32::MAX && old(self).barbarian_camps@[i].1 < u32::MAX,
        ensures
            final(self).wf(),
            spec_objectives_checked(*old(self), *final(self), team, team_units@),
    {
        if team == Team::Enemy {
            if team_units.contains_key(self.p1_castle) {
                self.p1_castle_turns = self.p1_castle_turns + 1;
            } else {
                self.p1_castle_turns = 0;
            }
        }
        if team == Team::Player {
            if team_units.contains_key(self.p2_castle) {
                self.p2_castle_turns = self.p2_castle_turns + 1;
            } else {
                self.p2_castle_turns = 0;
            }
        }
        if team == Team::Barbarians {
            return;
        }
        let ghost castles = (self.p1_castle, self.p1_castle_turns, self.p2_castle, self.p2_castle_turns);
        let ghost camps = self.barbarian_camps@;
        let ghost turns0 = self.barbarian_camps_turns@;
        let ghost teams0 = self.barbarian_camps_teams@;
        let ghost units = team_units@;
        let mut i: usize = 0;
        assert(camps.take(0) =~= Seq::<(u32, u32)>::empty());
        while i < self.barbarian_camps.len()
            invariant
                castles == (self.p1_castle, self.p1_castle_turns, self.p2_castle, self.p2_castle_turns),
                camps == self.barbarian_camps@,
                units == team_units@,
                team != Team::Barbarians,
                0 <= i <= camps.len(),
                camps.len() <= u32::MAX - 3,
                forall|j: int| 0 <= j < camps.len() ==> (#[trigger] camps[j]).0 < u32::MAX && camps[j].1 < u32::MAX,
                forall|j: int| 0 <= j < camps.len() ==> teams0.contains_key(#[trigger] camps[j]),
                (self.barbarian_camps_turns@, self.barbarian_camps_teams@) == spec_camps_fold(camps.take(i as int), turns0, teams0, units, team),
                forall|j: int| 0 <= j < camps.len() ==> {
                    let c = #[trigger] camps[j];
                    &&& self.barbarian_camps_turns@.contains_key(c)
                    &&& self.barbarian_camps_turns@[c] <= 2 + i
                    &&& self.barbarian_camps_teams@.contains_key(c)
                },
            decreases camps.len() - i,
        {
            let camp = self.barbarian_camps[i];
            assert(camps[i as int] == camp);
            let occupied = Self::camp_is_occupied_by_team(&camp, team_units);
            if occupied {
                let t = match self.barbarian_camps_turns.get(camp) {
                    Some(t) => t,
                    None => 0,
                };
                self.barbarian_camps_turns.insert(camp, t + 1);
                if Self::camp_unheld(&self.barbarian_camps_teams, camp) {
                    self.barbarian_camps_teams.insert(camp, Some(team));
                }
            } else if Self::camp_unheld(&self.barbarian_camps_teams, camp) {
                self.barbarian_camps_turns.insert(camp, 0);
            }
            proof {
                assert(camps.take(i + 1).drop_last() =~= camps.take(i as int));
                assert(camps.take(i + 1).last() == camp);
            }
            i += 1;
        }
        assert(camps.take(camps.len() as int) =~= camps);
        let ghost f = spec_camps_fold(camps, turns0, teams0, units, team);
        let ghost cap = spec_captured(camps, f.0);
        let ghost keep_pred = |c: (u32, u32)| !cap.contains(c);
        // Split the camps into those kept and those captured.
        let mut keep: Vec<(u32, u32)> = Vec::new();
        let mut captured: Vec<(u32, u32)> = Vec::new();
        let mut j: usize = 0;
        while j < self.barbarian_camps.len()
            invariant
                castles == (self.p1_castle, self.p1_castle_turns, self.p2_castle, self.p2_castle_turns),
                camps == self.barbarian_camps@,
                f.0 == self.barbarian_camps_turns@,
                f.1 == self.barbarian_camps_teams@,
                cap == spec_captured(camps, f.0),
                keep_pred == (|c: (u32, u32)| !cap.contains(c)),
                0 <= j <= camps.len(),
                forall|k: int| 0 <= k < camps.len() ==> {
                    let c = #[trigger] camps[k];
                    &&& f.0.contains_key(c)
                    &&& f.1.contains_key(c)
                },
                keep@ == camps.take(j as int).filter(keep_pred),
                forall|c: (u32, u32)| #[trigger] captured@.contains(c) <==> (camps.take(j as int).contains(c) && cap.contains(c)),
            decreases camps.len() - j,
        {
            let camp = self.barbarian_camps[j];
            let t = match self.barbarian_camps_turns.get(camp) {
                Some(t) => t,
                None => 0,
            };
            proof {
                assert(camps.contains(camp)) by { assert(camps[j as int] == camp); }
                reveal_with_fuel(Seq::<(u32, u32)>::filter, 1);
                assert(camps.take(j + 1).drop_last() =~= camps.take(j as int));
                assert(camps.take(j + 1).last() == camp);
            }
            let ghost old_captured = captured@;
            if t >= TURNS_TO_CAPTURE {
                captured.push(camp);
            } else {
                keep.push(camp);
            }
            proof {
                let t0 = camps.take(j as int);
                let t1 = camps.take(j + 1);
                assert(t1 == t0.push(camp));
                assert forall|c: (u32, u32)| #[trigger] captured@.contains(c) <==> (t1.contains(c) && cap.contains(c)) by {
                    if captured@.contains(c) && !old_captured.contains(c) {
                        let k = choose|k: int| 0 <= k < captured@.len() && captured@[k] == c;
                        assert(k == old_captured.len());
                        assert(t1[j as int] == c);
                    }
                    if old_captured.contains(c) {
                        let k = choose|k: int| 0 <= k < old_captured.len() && old_captured[k] == c;
                        assert(captured@[k] == c);
                        let k2 = choose|k2: int| 0 <= k2 < t0.len() && t0[k2] == c;
                        assert(t1[k2] == c);
                    }
                    if t1.contains(c) && cap.contains(c) {
                        let k = choose|k: int| 0 <= k < t1.len() && t1[k] == c;
                        if k < j {
                            assert(t0[k] == c);
                        } else {
                            assert(c == camp);
                            assert(captured@[captured@.len() - 1] == c);
                        }
                    }
                }
            }
            j += 1;
        }
        // Take the captured camps off the turn counts and holders.
        let mut k: usize = 0;
        while k < captured.len()
            invariant
                castles == (self.p1_castle, self.p1_castle_turns, self.p2_castle, self.p2_castle_turns),
                camps == self.barbarian_camps@,
                0 <= k <= captured@.len(),
                self.barbarian_camps_turns@ == f.0.remove_keys(captured@.take(k as int).to_set()),
                self.barbarian_camps_teams@ == f.1.remove_keys(captured@.take(k as int).to_set()),
            decreases captured@.len() - k,
        {
            let c = captured[k];
            self.barbarian_camps_turns.remove(c);
            self.barbarian_camps_teams.remove(c);
            proof {
                assert(captured@.take(k + 1) =~= captured@.take(k as int) + seq![c]);
                Seq::lemma_to_set_insert_commutes(captured@.take(k as int), c);
                assert(self.barbarian_camps_turns@ =~= f.0.remove_keys(captured@.take(k + 1).to_set()));
                assert(self.barbarian_camps_teams@ =~= f.1.remove_keys(captured@.take(k + 1).to_set()));
            }
            k += 1;
        }
        proof {
            assert(captured@.take(k as int) =~= captured@);
            assert(captured@.to_set() =~= cap);
            assert(camps.take(j as int) =~= camps);
        }
        proof {
            assert(keep@ == camps.filter(keep_pred));
        }
        self.barbarian_camps = keep;
        proof {
            assert forall|q: int| 0 <= q < self.barbarian_camps@.len() implies {
                let c = #[trigger] self.barbarian_camps@[q];
                &&& self.barbarian_camps_turns@.contains_key(c)
                &&& self.barbarian_camps_turns@[c] < TURNS_TO_CAPTURE
                &&& self.barbarian_camps_teams@.contains_key(c)
            } by {
                let c = self.barbarian_camps@[q];
                camps.lemma_filter_pred(keep_pred, q);
                camps.lemma_filter_contains_rev(keep_pred, c);
                let r = choose|r: int| 0 <= r < camps.len() && camps[r] == c;
                assert(camps[r] == c);
                assert(!cap.contains(c));
            }
            camps.lemma_filter_len(keep_pred);
        }
    }

    /// Whether `team` has held its opponent's castle long enough to win.
    pub fn has_won(&self, team: Team) -> (b: bool)
        ensures
            b == spec_has_won(*self, team),
    {
        if team == Team::Player {
            self.p2_castle_turns >= TURNS_TO_CAPTURE
        } else if team == Team::Enemy {
            self.p1_castle_turns >= TURNS_TO_CAPTURE
        } else {
            false
        }
    }
}

} // verus!
