//! The units of one team, keyed by the position each stands on.

use vstd::prelude::*;
use crate::unit::Unit;

verus! {

/// Whether no two units of `s` stand on the same position.
pub open spec fn spec_distinct_positions(s: Seq<Unit>) -> bool {
    forall|i: int, j: int| 0 <= i < s.len() && 0 <= j < s.len() && i != j ==> (#[trigger] s[i]).spec_pos() != (#[trigger] s[j]).spec_pos()
}

/// Whether some unit of `s` stands on `p`.
pub open spec fn spec_has_unit_at(s: Seq<Unit>, p: (u32, u32)) -> bool {
    exists|i: int| 0 <= i < s.len() && (#[trigger] s[i]).spec_pos() == p
}

/// The units of `s` keyed by their positions.
pub open spec fn spec_units_map(s: Seq<Unit>) -> Map<(u32, u32), Unit> {
    Map::new(
        |p: (u32, u32)| spec_has_unit_at(s, p),
        |p: (u32, u32)| s[choose|i: int| 0 <= i < s.len() && (#[trigger] s[i]).spec_pos() == p],
    )
}

/// In a sequence of units on distinct positions, the unit keyed by a unit's
/// position is that unit.
pub proof fn lemma_units_map_index(s: Seq<Unit>, i: int)
    requires
        spec_distinct_positions(s),
        0 <= i < s.len(),
    ensures
        spec_units_map(s).contains_key(s[i].spec_pos()),
        spec_units_map(s)[s[i].spec_pos()] == s[i],
{
    let p = s[i].spec_pos();
    assert(spec_has_unit_at(s, p));
    let j = choose|j: int| 0 <= j < s.len() && (#[trigger] s[j]).spec_pos() == p;
    assert(s[j].spec_pos() == s[i].spec_pos());
}

/// When `s` holds `u` on `p` and otherwise the units of `old_s` not on `p`,
/// its map is the old map with `u` placed on `p`.
proof fn lemma_after_change(old_s: Seq<Unit>, s: Seq<Unit>, p: (u32, u32), u: Unit)
    requires
        spec_distinct_positions(old_s),
        spec_distinct_positions(s),
        u.spec_pos() == p,
        s.contains(u),
        forall|j: int| 0 <= j < s.len() && s[j].spec_pos() != p ==> old_s.contains(#[trigger] s[j]),
        forall|j: int| 0 <= j < old_s.len() && old_s[j].spec_pos() != p ==> s.contains(#[trigger] old_s[j]),
    ensures
        spec_units_map(s) == spec_units_map(old_s).insert(p, u),
{
    let m = spec_units_map(s);
    let om = spec_units_map(old_s).insert(p, u);
    assert forall|q: (u32, u32)| m.contains_key(q) <==> om.contains_key(q) by {
        if m.contains_key(q) && q != p {
            let j = choose|j: int| 0 <= j < s.len() && (#[trigger] s[j]).spec_pos() == q;
            let k = choose|k: int| 0 <= k < old_s.len() && old_s[k] == s[j];
            assert(old_s[k].spec_pos() == q);
        }
        if q == p {
            let j = choose|j: int| 0 <= j < s.len() && s[j] == u;
            assert(s[j].spec_pos() == q);
        }
        if om.contains_key(q) && q != p {
            let j = choose|j: int| 0 <= j < old_s.len() && (#[trigger] old_s[j]).spec_pos() == q;
            let k = choose|k: int| 0 <= k < s.len() && s[k] == old_s[j];
            assert(s[k].spec_pos() == q);
        }
    }
    assert forall|q: (u32, u32)| m.contains_key(q) implies m[q] == om[q] by {
        let j = choose|j: int| 0 <= j < s.len() && (#[trigger] s[j]).spec_pos() == q;
        lemma_units_map_index(s, j);
        if q == p {
            let k = choose|k: int| 0 <= k < s.len() && s[k] == u;
            lemma_units_map_index(s, k);
        } else {
            let k = choose|k: int| 0 <= k < old_s.len() && old_s[k] == s[j];
            lemma_units_map_index(old_s, k);
        }
    }
    assert(m =~= om);
}

/// When `t` holds, index by index, units on the same positions as those of
/// `s`, the map of `t` has the same keys, each holding the unit of `t` at
/// the index the key's unit had in `s`.
proof fn lemma_same_positions(s: Seq<Unit>, t: Seq<Unit>)
    requires
        spec_distinct_positions(s),
        s.len() == t.len(),
        forall|i: int| 0 <= i < s.len() ==> (#[trigger] t[i]).spec_pos() == s[i].spec_pos(),
    ensures
        spec_distinct_positions(t),
        spec_units_map(t).dom() == spec_units_map(s).dom(),
        forall|i: int| 0 <= i < s.len() ==> spec_units_map(t)[#[trigger] s[i].spec_pos()] == t[i],
{
    assert forall|a: int, b: int| 0 <= a < t.len() && 0 <= b < t.len() && a != b implies (#[trigger] t[a]).spec_pos() != (#[trigger] t[b]).spec_pos() by {
        assert(s[a].spec_pos() != s[b].spec_pos());
    }
    assert forall|p: (u32, u32)| spec_has_unit_at(t, p) <==> spec_has_unit_at(s, p) by {
        if spec_has_unit_at(t, p) {
            let i = choose|i: int| 0 <= i < t.len() && (#[trigger] t[i]).spec_pos() == p;
            assert(s[i].spec_pos() == p);
        }
        if spec_has_unit_at(s, p) {
            let i = choose|i: int| 0 <= i < s.len() && (#[trigger] s[i]).spec_pos() == p;
            assert(t[i].spec_pos() == p);
        }
    }
    assert(spec_units_map(t).dom() =~= spec_units_map(s).dom());
    assert forall|i: int| 0 <= i < s.len() implies spec_units_map(t)[#[trigger] s[i].spec_pos()] == t[i] by {
        lemma_units_map_index(t, i);
    }
}

/// The units of one team. Every unit is keyed by the position it stands on,
/// and no two units share a position.
pub struct UnitMap {
    units: Vec<Unit>,
}

impl View for UnitMap {
    type V = Map<(u32, u32), Unit>;

    open spec fn view(&self) -> Map<(u32, u32), Unit> {
        spec_units_map(self.seq())
    }
}

impl UnitMap {
    /// The units in the order they are stored.
    pub closed spec fn seq(&self) -> Seq<Unit> {
        self.units@
    }

    #[verifier::type_invariant]
    spec fn well_formed(&self) -> bool {
        spec_distinct_positions(self.units@)
    }

    pub fn new() -> (m: UnitMap)
        ensures
            m@ == Map::<(u32, u32), Unit>::empty(),
            m.seq().len() == 0,
    {
        let m = UnitMap { units: Vec::new() };
        assert(m@ =~= Map::<(u32, u32), Unit>::empty());
        m
    }

    /// The units in the order they are stored.
    pub fn values(&self) -> (r: &Vec<Unit>)
        ensures
            r@ == self.seq(),
            spec_distinct_positions(r@),
            forall|i: int| 0 <= i < r@.len() ==> self@.contains_key(#[trigger] r@[i].spec_pos())
                && self@[r@[i].spec_pos()] == r@[i],
            forall|p: (u32, u32)| self@.contains_key(p) <==> spec_has_unit_at(r@, p),
    {
        proof {
            use_type_invariant(self);
            assert forall|i: int| 0 <= i < self.seq().len() implies self@.contains_key(#[trigger] self.seq()[i].spec_pos())
                && self@[self.seq()[i].spec_pos()] == self.seq()[i] by {
                lemma_units_map_index(self.seq(), i);
            }
        }
        &self.units
    }

    pub fn len(&self) -> (n: usize)
        ensures
            n == self.seq().len(),
            n == self@.dom().len(),
    {
        proof {
            use_type_invariant(self);
            self.lemma_dom_len();
        }
        self.units.len()
    }

    proof fn lemma_dom_len(&self)
        requires
            spec_distinct_positions(self.seq()),
        ensures
            self@.dom().finite(),
            self@.dom().len() == self.seq().len(),
    {
        let s = self.seq();
        let ps = s.map_values(|u: Unit| u.spec_pos());
        assert(ps.no_duplicates()) by {
            assert forall|i: int, j: int| 0 <= i < ps.len() && 0 <= j < ps.len() && i != j implies ps[i] != ps[j] by {
                assert(ps[i] == s[i].spec_pos());
                assert(ps[j] == s[j].spec_pos());
            }
        }
        assert(self@.dom() =~= ps.to_set()) by {
            assert forall|p: (u32, u32)| self@.dom().contains(p) implies ps.to_set().contains(p) by {
                let i = choose|i: int| 0 <= i < s.len() && (#[trigger] s[i]).spec_pos() == p;
                assert(ps[i] == p);
            }
            assert forall|p: (u32, u32)| ps.to_set().contains(p) implies self@.dom().contains(p) by {
                let i = choose|i: int| 0 <= i < ps.len() && ps[i] == p;
                assert(s[i].spec_pos() == p);
            }
        }
        ps.unique_seq_to_set();
    }

    /// The index of the unit standing on `pos`, if any.
    fn index_of(&self, pos: (u32, u32)) -> (r: Option<usize>)
        ensures
            r matches Some(i) ==> i < self.seq().len() && self.seq()[i as int].spec_pos() == pos,
            r is None ==> !spec_has_unit_at(self.seq(), pos),
    {
        let mut i: usize = 0;
        while i < self.units.len()
            invariant
                i <= self.units@.len(),
                forall|j: int| 0 <= j < i ==> (#[trigger] self.units@[j]).spec_pos() != pos,
            decreases self.units@.len() - i,
        {
            if self.units[i].x == pos.0 && self.units[i].y == pos.1 {
                return Some(i);
            }
            i += 1;
        }
        None
    }

    pub fn contains_key(&self, pos: (u32, u32)) -> (b: bool)
        ensures
            b == self@.contains_key(pos),
    {
        self.index_of(pos).is_some()
    }

    /// The unit standing on `pos`, if any.
    pub fn get(&self, pos: (u32, u32)) -> (r: Option<Unit>)
        ensures
            r == self@.get(pos),
    {
        proof { use_type_invariant(self); }
        match self.index_of(pos) {
            Some(i) => {
                proof { lemma_units_map_index(self.seq(), i as int); }
                Some(self.units[i])
            },
            None => None,
        }
    }

    /// Places `unit` on its own position, replacing any unit there.
    pub fn insert(&mut self, unit: Unit)
        ensures
            final(self)@ == old(self)@.insert(unit.spec_pos(), unit),
    {
        proof { use_type_invariant(&*self); }
        let ghost old_s = self.units@;
        let ghost p = unit.spec_pos();
        let found = self.index_of((unit.x, unit.y));
        let mut units: Vec<Unit> = Vec::new();
        std::mem::swap(&mut units, &mut self.units);
        match found {
            Some(i) => {
                units.set(i, unit);
                proof {
                    let s = units@;
                    assert(s == old_s.update(i as int, unit));
                    assert(s[i as int] == unit);
                    assert forall|j: int| 0 <= j < old_s.len() && old_s[j].spec_pos() != p implies s.contains(#[trigger] old_s[j]) by {
                        assert(j != i);
                        assert(s[j] == old_s[j]);
                    }
                    assert forall|j: int| 0 <= j < s.len() && s[j].spec_pos() != p implies old_s.contains(#[trigger] s[j]) by {
                        assert(s[j] == old_s[j]);
                    }
                    assert(spec_distinct_positions(s)) by {
                        assert forall|a: int, b: int| 0 <= a < s.len() && 0 <= b < s.len() && a != b implies (#[trigger] s[a]).spec_pos() != (#[trigger] s[b]).spec_pos() by {
                            if a == i || b == i {
                                assert(old_s[a].spec_pos() != old_s[b].spec_pos());
                            }
                        }
                    }
                    lemma_after_change(old_s, s, p, unit);
                }
            },
            None => {
                units.push(unit);
                proof {
                    let s = units@;
                    assert(s == old_s.push(unit));
                    assert(s[old_s.len() as int] == unit);
                    assert forall|j: int| 0 <= j < old_s.len() && old_s[j].spec_pos() != p implies s.contains(#[trigger] old_s[j]) by {
                        assert(s[j] == old_s[j]);
                    }
                    assert forall|j: int| 0 <= j < s.len() && s[j].spec_pos() != p implies old_s.contains(#[trigger] s[j]) by {
                        assert(s[j] == old_s[j]);
                    }
                    assert(spec_distinct_positions(s)) by {
                        assert forall|a: int, b: int| 0 <= a < s.len() && 0 <= b < s.len() && a != b implies (#[trigger] s[a]).spec_pos() != (#[trigger] s[b]).spec_pos() by {
                            if a == old_s.len() as int {
                                assert(old_s[b] == s[b]);
                            } else if b == old_s.len() as int {
                                assert(old_s[a] == s[a]);
                            }
                        }
                    }
                    lemma_after_change(old_s, s, p, unit);
                }
            },
        }
        self.units = units;
    }

    /// Lets every unit move and attack again.
    pub fn next_turn_all(&mut self)
        ensures
            final(self)@.dom() == old(self)@.dom(),
            forall|p: (u32, u32)| #[trigger] old(self)@.contains_key(p) ==> final(self)@[p] == (Unit {
                has_attacked: false,
                has_moved: false,
                ..old(self)@[p]
            }),
    {
        proof { use_type_invariant(&*self); }
        let ghost old_s = self.units@;
        let mut units: Vec<Unit> = Vec::new();
        std::mem::swap(&mut units, &mut self.units);
        let mut i: usize = 0;
        while i < units.len()
            invariant
                units@.len() == old_s.len(),
                i <= units@.len(),
                forall|j: int| 0 <= j < i ==> #[trigger] units@[j] == (Unit { has_attacked: false, has_moved: false, ..old_s[j] }),
                forall|j: int| i <= j < units@.len() ==> #[trigger] units@[j] == old_s[j],
            decreases units@.len() - i,
        {
            let mut u = units[i];
            u.next_turn();
            units.set(i, u);
            i += 1;
        }
        proof {
            let t = units@;
            assert forall|j: int| 0 <= j < old_s.len() implies (#[trigger] t[j]).spec_pos() == old_s[j].spec_pos() by {
                assert(t[j] == (Unit { has_attacked: false, has_moved: false, ..old_s[j] }));
            }
            lemma_same_positions(old_s, t);
            assert forall|p: (u32, u32)| #[trigger] old(self)@.contains_key(p) implies spec_units_map(t)[p] == (Unit {
                has_attacked: false,
                has_moved: false,
                ..old(self)@[p]
            }) by {
                let j = choose|j: int| 0 <= j < old_s.len() && (#[trigger] old_s[j]).spec_pos() == p;
                lemma_units_map_index(old_s, j);
                assert(t[j] == (Unit { has_attacked: false, has_moved: false, ..old_s[j] }));
            }
        }
        self.units = units;
    }

    /// The positions of the units that have no health left.
    pub fn dead_positions(&self) -> (r: Vec<(u32, u32)>)
        ensures
            forall|p: (u32, u32)| #[trigger] r@.contains(p) <==> (self@.contains_key(p) && self@[p].hp == 0),
    {
        let v = self.values();
        let mut r: Vec<(u32, u32)> = Vec::new();
        let mut i: usize = 0;
        while i < v.len()
            invariant
                i <= v@.len(),
                forall|j: int| 0 <= j < v@.len() ==> self@.contains_key(#[trigger] v@[j].spec_pos()) && self@[v@[j].spec_pos()] == v@[j],
                forall|p: (u32, u32)| #[trigger] r@.contains(p) <==> exists|j: int| 0 <= j < i && (#[trigger] v@[j]).spec_pos() == p && v@[j].hp == 0,
            decreases v@.len() - i,
        {
            let u = v[i];
            let ghost old_r = r@;
            if u.hp == 0 {
                r.push((u.x, u.y));
            }
            proof {
                assert forall|p: (u32, u32)| #[trigger] r@.contains(p) <==> exists|j: int| 0 <= j < i + 1 && (#[trigger] v@[j]).spec_pos() == p && v@[j].hp == 0 by {
                    if r@.contains(p) && !old_r.contains(p) {
                        let k = choose|k: int| 0 <= k < r@.len() && r@[k] == p;
                        assert(k == old_r.len());
                        assert(v@[i as int].spec_pos() == p);
                    }
                    if old_r.contains(p) {
                        let k = choose|k: int| 0 <= k < old_r.len() && old_r[k] == p;
                        assert(r@[k] == p);
                    }
                    if exists|j: int| 0 <= j < i + 1 && (#[trigger] v@[j]).spec_pos() == p && v@[j].hp == 0 {
                        let j = choose|j: int| 0 <= j < i + 1 && (#[trigger] v@[j]).spec_pos() == p && v@[j].hp == 0;
                        if j == i {
                            assert(r@[r@.len() - 1] == p);
                        }
                    }
                }
            }
            i += 1;
        }
        proof {
            assert forall|p: (u32, u32)| #[trigger] r@.contains(p) <==> (self@.contains_key(p) && self@[p].hp == 0) by {
                if self@.contains_key(p) {
                    let j = choose|j: int| 0 <= j < v@.len() && (#[trigger] v@[j]).spec_pos() == p;
                    assert(self@[v@[j].spec_pos()] == v@[j]);
                }
            }
        }
        r
    }

    /// Some unit that has not moved this turn, if there is one.
    pub fn find_unmoved(&self) -> (r: Option<Unit>)
        ensures
            r matches Some(u) ==> self@.contains_key(u.spec_pos()) && self@[u.spec_pos()] == u && !u.has_moved,
            r is None ==> forall|p: (u32, u32)| #[trigger] self@.contains_key(p) ==> self@[p].has_moved,
    {
        let v = self.values();
        let mut i: usize = 0;
        while i < v.len()
            invariant
                i <= v@.len(),
                forall|j: int| 0 <= j < i ==> (#[trigger] v@[j]).has_moved,
                forall|j: int| 0 <= j < v@.len() ==> self@.contains_key(#[trigger] v@[j].spec_pos()) && self@[v@[j].spec_pos()] == v@[j],
            decreases v@.len() - i,
        {
            if !v[i].has_moved {
                return Some(v[i]);
            }
            i += 1;
        }
        proof {
            assert forall|p: (u32, u32)| #[trigger] self@.contains_key(p) implies self@[p].has_moved by {
                let j = choose|j: int| 0 <= j < v@.len() && (#[trigger] v@[j]).spec_pos() == p;
                assert(self@[v@[j].spec_pos()] == v@[j]);
            }
        }
        None
    }

    /// Every unit is kept under the position it stands on.
    pub proof fn lemma_keyed_by_pos(&self, p: (u32, u32))
        requires
            self@.contains_key(p),
        ensures
            self@[p].spec_pos() == p,
    {
        assert(spec_has_unit_at(self.seq(), p));
    }

    /// Takes away the unit standing on `pos`, if any, and returns it.
    pub fn remove(&mut self, pos: (u32, u32)) -> (r: Option<Unit>)
        ensures
            r == old(self)@.get(pos),
            final(self)@ == old(self)@.remove(pos),
    {
        proof { use_type_invariant(&*self); }
        let ghost old_s = self.units@;
        let found = self.index_of(pos);
        match found {
            Some(i) => {
                let mut units: Vec<Unit> = Vec::new();
                std::mem::swap(&mut units, &mut self.units);
                let u = units.remove(i);
                proof {
                    lemma_units_map_index(old_s, i as int);
                    let s = units@;
                    assert(s == old_s.remove(i as int));
                    assert(spec_distinct_positions(s)) by {
                        assert forall|a: int, b: int| 0 <= a < s.len() && 0 <= b < s.len() && a != b implies (#[trigger] s[a]).spec_pos() != (#[trigger] s[b]).spec_pos() by {
                            let a2 = if a < i { a } else { a + 1 };
                            let b2 = if b < i { b } else { b + 1 };
                            assert(s[a] == old_s[a2]);
                            assert(s[b] == old_s[b2]);
                        }
                    }
                    let m = spec_units_map(s);
                    let om = spec_units_map(old_s).remove(pos);
                    assert forall|q: (u32, u32)| m.contains_key(q) <==> om.contains_key(q) by {
                        if m.contains_key(q) {
                            let j = choose|j: int| 0 <= j < s.len() && (#[trigger] s[j]).spec_pos() == q;
                            let j2 = if j < i { j } else { j + 1 };
                            assert(old_s[j2] == s[j]);
                            assert(j2 != i);
                        }
                        if om.contains_key(q) {
                            let j = choose|j: int| 0 <= j < old_s.len() && (#[trigger] old_s[j]).spec_pos() == q;
                            assert(j != i);
                            let j2 = if j < i { j } else { j - 1 };
                            assert(s[j2] == old_s[j]);
                        }
                    }
                    assert forall|q: (u32, u32)| m.contains_key(q) implies m[q] == om[q] by {
                        let j = choose|j: int| 0 <= j < s.len() && (#[trigger] s[j]).spec_pos() == q;
                        let j2 = if j < i { j } else { j + 1 };
                        assert(old_s[j2] == s[j]);
                        lemma_units_map_index(s, j);
                        lemma_units_map_index(old_s, j2);
                    }
                    assert(m =~= om);
                }
                self.units = units;
                Some(u)
            },
            None => {
                proof {
                    assert(spec_units_map(old_s).remove(pos) =~= spec_units_map(old_s));
                }
                None
            },
        }
    }
}

} // verus!
