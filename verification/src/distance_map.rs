//! The table of walking distances from every tile to each objective, read
//! from its text form.
//!
//! The text is a list of lines. A line "p1_castle" or "enemy_castle" starts
//! the distances to the player's or the enemy's castle; a line "# x y"
//! starts the distances to the camp at (x, y); a line "x y d" gives the
//! distance d from (x, y) to the objective of the current section. The
//! distances before any section heading go to the player's castle, and
//! other lines are ignored.

use vstd::prelude::*;
use crate::decimal::{parse_u32, spec_parse_u32, split_spaces, spec_split_spaces};
use std::collections::HashMap;
use crate::tile_map::{PosMap, pos_key, spec_pos_key, lemma_pos_key_injective};

verus! {

broadcast use vstd::std_specs::hash::group_hash_axioms;

/// The distances to each camp, by camp.
pub struct CampDistances {
    inner: HashMap<u64, PosMap<u32>>,
}

impl View for CampDistances {
    type V = Map<(u32, u32), Map<(u32, u32), u32>>;

    closed spec fn view(&self) -> Map<(u32, u32), Map<(u32, u32), u32>> {
        Map::new(
            |c: (u32, u32)| self.inner@.contains_key(spec_pos_key(c)),
            |c: (u32, u32)| self.inner@[spec_pos_key(c)]@,
        )
    }
}

impl CampDistances {
    pub fn new() -> (m: CampDistances)
        ensures
            m@ == Map::<(u32, u32), Map<(u32, u32), u32>>::empty(),
    {
        let m = CampDistances { inner: HashMap::new() };
        assert(m@ =~= Map::<(u32, u32), Map<(u32, u32), u32>>::empty());
        m
    }

    /// The distance from `pos` to the camp at `camp`, if both are listed.
    pub fn get(&self, camp: (u32, u32), pos: (u32, u32)) -> (r: Option<u32>)
        ensures
            r == (if self@.contains_key(camp) { self@[camp].get(pos) } else { None }),
    {
        match self.inner.get(&pos_key(camp)) {
            Some(m) => m.get(pos),
            None => None,
        }
    }

    /// Starts an empty list of distances for the camp at `camp`, replacing any there was.
    pub fn start_camp(&mut self, camp: (u32, u32))
        ensures
            final(self)@ == old(self)@.insert(camp, Map::empty()),
    {
        let k = pos_key(camp);
        self.inner.insert(k, PosMap::new());
        proof {
            assert forall|c: (u32, u32)| #![auto] self.inner@.contains_key(spec_pos_key(c))
                == old(self)@.insert(camp, Map::empty()).contains_key(c) by {
                lemma_pos_key_injective(c, camp);
            }
            assert forall|c: (u32, u32)| #![auto] self@.contains_key(c) implies self@[c] == old(self)@.insert(camp, Map::empty())[c] by {
                lemma_pos_key_injective(c, camp);
            }
        }
        assert(self@ =~= old(self)@.insert(camp, Map::empty()));
    }

    /// Records the distance `d` from `pos` to the listed camp at `camp`.
    pub fn insert(&mut self, camp: (u32, u32), pos: (u32, u32), d: u32)
        requires
            old(self)@.contains_key(camp),
        ensures
            final(self)@ == old(self)@.insert(camp, old(self)@[camp].insert(pos, d)),
    {
        let k = pos_key(camp);
        match self.inner.remove(&k) {
            Some(m) => {
                let mut m = m;
                m.insert(pos, d);
                self.inner.insert(k, m);
            },
            None => {},
        }
        proof {
            let target = old(self)@.insert(camp, old(self)@[camp].insert(pos, d));
            assert forall|c: (u32, u32)| #![auto] self.inner@.contains_key(spec_pos_key(c)) == target.contains_key(c) by {
                lemma_pos_key_injective(c, camp);
            }
            assert forall|c: (u32, u32)| #![auto] self@.contains_key(c) implies self@[c] == target[c] by {
                lemma_pos_key_injective(c, camp);
            }
            assert(self@ =~= target);
        }
    }
}

/// The section a line of distances goes to.
#[derive(Clone, Copy, Debug)]
pub enum Section {
    PlayerCastle,
    EnemyCastle,
    Camp((u32, u32)),
}

/// The walking distances from each tile (x, y) to each objective.
pub struct DistanceMap {
    pub to_player_castle: PosMap<u32>,
    pub to_enemy_castle: PosMap<u32>,
    pub to_barbarian_camps: CampDistances,
}

/// What has been read so far: the current section and the three tables.
pub type ReadState = (Section, Map<(u32, u32), u32>, Map<(u32, u32), u32>, Map<(u32, u32), Map<(u32, u32), u32>>);

/// The state after reading `line` in state `st`, or `None` when a number on
/// a line of three fields cannot be read.
pub open spec fn spec_read_line(st: ReadState, line: Seq<char>) -> Option<ReadState> {
    let f = spec_split_spaces(line);
    let (sec, pc, ec, camps) = st;
    if f.len() == 1 {
        if f[0] == "p1_castle"@ {
            Some((Section::PlayerCastle, pc, ec, camps))
        } else if f[0] == "enemy_castle"@ {
            Some((Section::EnemyCastle, pc, ec, camps))
        } else {
            Some(st)
        }
    } else if f.len() == 3 {
        if f[0] == "#"@ {
            match (spec_parse_u32(f[1]), spec_parse_u32(f[2])) {
                (Some(x), Some(y)) => Some((Section::Camp((x, y)), pc, ec, camps.insert((x, y), Map::empty()))),
                _ => None,
            }
        } else {
            match (spec_parse_u32(f[0]), spec_parse_u32(f[1]), spec_parse_u32(f[2])) {
                (Some(x), Some(y), Some(d)) => match sec {
                    Section::PlayerCastle => Some((sec, pc.insert((x, y), d), ec, camps)),
                    Section::EnemyCastle => Some((sec, pc, ec.insert((x, y), d), camps)),
                    Section::Camp(c) => Some((sec, pc, ec, camps.insert(c, camps[c].insert((x, y), d)))),
                },
                _ => None,
            }
        }
    } else {
        Some(st)
    }
}

/// The state after reading `lines` one after another from the start.
pub open spec fn spec_read_lines(lines: Seq<Seq<char>>) -> Option<ReadState>
    decreases lines.len(),
{
    if lines.len() == 0 {
        Some((Section::PlayerCastle, Map::empty(), Map::empty(), Map::empty()))
    } else {
        match spec_read_lines(lines.drop_last()) {
            Some(st) => spec_read_line(st, lines.last()),
            None => None,
        }
    }
}

/// Once reading fails, reading more lines does not recover.
proof fn lemma_read_fails_on(lines: Seq<Seq<char>>, k: int)
    requires
        0 <= k <= lines.len(),
        spec_read_lines(lines.take(k)) is None,
    ensures
        spec_read_lines(lines) is None,
    decreases lines.len(),
{
    if lines.len() == k {
        assert(lines.take(k) =~= lines);
    } else {
        assert(lines.drop_last().take(k) =~= lines.take(k));
        lemma_read_fails_on(lines.drop_last(), k);
    }
}

/// Whether the current section of `st` is a camp its tables list.
pub open spec fn spec_section_listed(st: ReadState) -> bool {
    st.0 matches Section::Camp(c) ==> st.3.contains_key(c)
}

/// The text of each line of `lines`.
pub open spec fn spec_lines_view(lines: Seq<Vec<char>>) -> Seq<Seq<char>> {
    Seq::new(lines.len(), |i: int| lines[i]@)
}

impl DistanceMap {
    /// The tables read from the lines of their text, `lines`, or an error
    /// when a number on a line of numbers cannot be read.
    pub fn new(lines: &Vec<Vec<char>>) -> (r: Result<DistanceMap, String>)
        ensures
            match spec_read_lines(spec_lines_view(lines@)) {
                Some(st) => r matches Ok(m) && m.to_player_castle@ == st.1 && m.to_enemy_castle@ == st.2
                    && m.to_barbarian_camps@ == st.3,
                None => r is Err,
            },
    {
        let mut section = Section::PlayerCastle;
        let mut pc: PosMap<u32> = PosMap::new();
        let mut ec: PosMap<u32> = PosMap::new();
        let mut camps = CampDistances::new();
        let mut i: usize = 0;
        while i < lines.len()
            invariant
                i <= lines@.len(),
                spec_read_lines(spec_lines_view(lines@).take(i as int)) == Some((section, pc@, ec@, camps@)),
                spec_section_listed((section, pc@, ec@, camps@)),
            decreases lines@.len() - i,
        {
            let ghost st = (section, pc@, ec@, camps@);
            let line = &lines[i];
            proof {
                let t1 = spec_lines_view(lines@).take(i + 1);
                assert(t1.drop_last() =~= spec_lines_view(lines@).take(i as int));
                assert(t1.last() == line@);
            }
            let f = split_spaces(line);
            let ghost sf = spec_split_spaces(line@);
            if f.len() == 1 {
                let w = &f[0];
                if chars_are(w, "p1_castle") {
                    section = Section::PlayerCastle;
                } else if chars_are(w, "enemy_castle") {
                    section = Section::EnemyCastle;
                }
            } else if f.len() == 3 {
                if chars_are(&f[0], "#") {
                    match (parse_u32(&f[1]), parse_u32(&f[2])) {
                        (Some(x), Some(y)) => {
                            camps.start_camp((x, y));
                            section = Section::Camp((x, y));
                        },
                        _ => {
                            proof {
                                assert(spec_read_line(st, line@) is None);
                                lemma_read_fails_on(spec_lines_view(lines@), i + 1);
                            }
                            return Err("Could not read a camp's coordinates".to_string());
                        },
                    }
                } else {
                    match (parse_u32(&f[0]), parse_u32(&f[1]), parse_u32(&f[2])) {
                        (Some(x), Some(y), Some(d)) => {
                            match section {
                                Section::PlayerCastle => pc.insert((x, y), d),
                                Section::EnemyCastle => ec.insert((x, y), d),
                                Section::Camp(c) => camps.insert(c, (x, y), d),
                            }
                        },
                        _ => {
                            proof {
                                assert(spec_read_line(st, line@) is None);
                                lemma_read_fails_on(spec_lines_view(lines@), i + 1);
                            }
                            return Err("Could not read a distance".to_string());
                        },
                    }
                }
            }
            proof {
                assert(spec_read_line(st, line@) == Some((section, pc@, ec@, camps@)));
            }
            i += 1;
        }
        proof {
            assert(spec_lines_view(lines@).take(i as int) =~= spec_lines_view(lines@));
        }
        Ok(DistanceMap { to_player_castle: pc, to_enemy_castle: ec, to_barbarian_camps: camps })
    }
}

/// Whether `w` holds exactly the characters of `s`.
fn chars_are(w: &Vec<char>, s: &str) -> (b: bool)
    ensures
        b == (w@ == s@),
{
    let n = s.unicode_len();
    if w.len() != n {
        return false;
    }
    let mut i: usize = 0;
    while i < w.len()
        invariant
            i <= w@.len(),
            w@.len() == s@.len(),
            forall|k: int| 0 <= k < i ==> w@[k] == s@[k],
        decreases w@.len() - i,
    {
        if w[i] != s.get_char(i) {
            return false;
        }
        i += 1;
    }
    assert(w@ =~= s@);
    true
}

} // verus!
