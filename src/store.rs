use vstd::prelude::*;

use crate::pac::{Pac, PacProperties};
use crate::pellet::Pellet;
use crate::world::{Position, Team, WorldModel};

verus! {

/// A unit of `s` has identity `(team, id)`.
pub open spec fn has_unit(s: Seq<Pac>, team: Team, id: i32) -> bool {
    exists|i: int| 0 <= i < s.len() && s[i].team == team && s[i].id == id
}

/// The unit records after a sighting of unit `(team, id)` with properties
/// `prop`: the record with that identity carries `prop` and every other
/// record is kept; a record is appended only where none had that identity.
pub open spec fn after_upsert(s: Seq<Pac>, team: Team, id: i32, prop: PacProperties) -> Seq<Pac> {
    let rec = Pac { team, id, prop };
    if has_unit(s, team, id) {
        s.map_values(|p: Pac| if p.team == team && p.id == id { rec } else { p })
    } else {
        s.push(rec)
    }
}

/// A sighting keeps unit identities unique and never stores `Unknown`.
pub proof fn lemma_upsert_keeps_wf(s: Seq<Pac>, team: Team, id: i32, prop: PacProperties)
    requires
        units_wf(s),
        team != Team::Unknown,
    ensures
        units_wf(after_upsert(s, team, id, prop)),
{
    let r = after_upsert(s, team, id, prop);
    if !has_unit(s, team, id) {
        assert forall|i: int, j: int| 0 <= i < j < r.len() implies !(r[i].team == r[j].team
            && r[i].id == r[j].id) by {
            if j == s.len() {
                assert(r[i] == s[i]);
            }
        }
    }
}

/// Sighting the same unit twice leaves exactly one record with its identity,
/// and that record carries the properties of the later sighting.
pub proof fn lemma_upsert_twice(s: Seq<Pac>, team: Team, id: i32, first: PacProperties, second: PacProperties)
    requires
        units_wf(s),
        team != Team::Unknown,
    ensures
        ({
            let r = after_upsert(after_upsert(s, team, id, first), team, id, second);
            &&& units_wf(r)
            &&& r.len() == s.len() + if has_unit(s, team, id) { 0int } else { 1int }
            &&& exists|i: int| 0 <= i < r.len() && #[trigger] r[i] == (Pac { team, id, prop: second })
            &&& forall|i: int, j: int|
                0 <= i < r.len() && 0 <= j < r.len() && r[i].team == team && r[i].id == id
                    && r[j].team == team && r[j].id == id ==> i == j
        }),
{
    let m = after_upsert(s, team, id, first);
    let r = after_upsert(m, team, id, second);
    lemma_upsert_keeps_wf(s, team, id, first);
    lemma_upsert_keeps_wf(m, team, id, second);
    if has_unit(s, team, id) {
        let k = choose|k: int| 0 <= k < s.len() && s[k].team == team && s[k].id == id;
        assert(m[k].team == team && m[k].id == id);
        assert(r[k] == (Pac { team, id, prop: second }));
    } else {
        let k = s.len() as int;
        assert(m[k].team == team && m[k].id == id);
        assert(r[k] == (Pac { team, id, prop: second }));
    }
    assert forall|i: int, j: int|
        0 <= i < r.len() && 0 <= j < r.len() && r[i].team == team && r[i].id == id
            && r[j].team == team && r[j].id == id implies i == j by {
        if i < j {
            assert(!(r[i].team == r[j].team && r[i].id == r[j].id));
        } else if j < i {
            assert(!(r[j].team == r[i].team && r[j].id == r[i].id));
        }
    }
}

/// After the pellets are replaced by `list`, a position holds a pellet
/// exactly when `list` names it; every earlier pellet whose position `list`
/// does not name is gone.
pub proof fn lemma_replace_is_total(before: WorldModel, after: WorldModel, list: Seq<Pellet>)
    requires
        forall|q: Position| #[trigger] after.pellet_lookup(q) == find_pellet(list, q),
    ensures
        forall|q: Position|
            #[trigger] after.pellet_lookup(q).is_some() <==> exists|i: int|
                0 <= i < list.len() && list[i].pos == q,
        forall|q: Position|
            before.pellet_lookup(q).is_some() && !(exists|i: int| 0 <= i < list.len() && list[i].pos == q)
                ==> #[trigger] after.pellet_lookup(q).is_none(),
{
    assert forall|q: Position|
        #[trigger] after.pellet_lookup(q).is_some() <==> exists|i: int|
            0 <= i < list.len() && list[i].pos == q by {
        lemma_find_pellet(list, q);
    }
}

/// One unit as reported in a turn's input.
#[derive(Clone, Copy, Debug, PartialEq, Eq)]
pub struct PacSighting {
    pub id: i32,
    /// The unit belongs to the controlling team.
    pub mine: bool,
    pub prop: PacProperties,
}

/// The team of a reported unit.
pub open spec fn team_of(mine: bool) -> Team {
    if mine {
        Team::Us
    } else {
        Team::Opp
    }
}

/// The unit records after the sightings of `seen`, applied in order.
pub open spec fn after_sightings(s: Seq<Pac>, seen: Seq<PacSighting>) -> Seq<Pac>
    decreases seen.len(),
{
    if seen.len() == 0 {
        s
    } else {
        let u = seen.last();
        after_upsert(after_sightings(s, seen.drop_last()), team_of(u.mine), u.id, u.prop)
    }
}

/// The units of `s` that belong to `team`, in their order.
pub open spec fn units_of(s: Seq<Pac>, team: Team) -> Seq<Pac>
    decreases s.len(),
{
    if s.len() == 0 {
        Seq::empty()
    } else if s.last().team == team {
        units_of(s.drop_last(), team).push(s.last())
    } else {
        units_of(s.drop_last(), team)
    }
}

/// The last pellet of `s` that lies at `q`, if any.
pub open spec fn find_pellet(s: Seq<Pellet>, q: Position) -> Option<Pellet>
    decreases s.len(),
{
    if s.len() == 0 {
        None
    } else if s.last().pos == q {
        Some(s.last())
    } else {
        find_pellet(s.drop_last(), q)
    }
}

/// `find_pellet` finds a pellet exactly where `s` has one at `q`; on a
/// sequence without shared positions it finds that one.
pub proof fn lemma_find_pellet(s: Seq<Pellet>, q: Position)
    ensures
        find_pellet(s, q).is_some() <==> exists|i: int| 0 <= i < s.len() && s[i].pos == q,
        find_pellet(s, q) matches Some(p) ==> p.pos == q,
        pellets_unique(s) ==> forall|i: int|
            0 <= i < s.len() && s[i].pos == q ==> find_pellet(s, q) == Some(s[i]),
    decreases s.len(),
{
    if s.len() > 0 {
        let t = s.drop_last();
        lemma_find_pellet(t, q);
        assert forall|i: int| 0 <= i < t.len() implies t[i] == s[i] by {}
        if s.last().pos != q {
            if exists|i: int| 0 <= i < s.len() && s[i].pos == q {
                let i = choose|i: int| 0 <= i < s.len() && s[i].pos == q;
                assert(t[i].pos == q);
            }
        }
    }
}

/// No two pellets of `s` share a position.
pub open spec fn pellets_unique(s: Seq<Pellet>) -> bool {
    forall|i: int, j: int| 0 <= i < j < s.len() ==> s[i].pos != s[j].pos
}

/// No two units of `s` share an identity, and none has the `Unknown` team.
pub open spec fn units_wf(s: Seq<Pac>) -> bool {
    &&& forall|i: int, j: int|
        0 <= i < j < s.len() ==> !(s[i].team == s[j].team && s[i].id == s[j].id)
    &&& forall|i: int| 0 <= i < s.len() ==> s[i].team != Team::Unknown
}

impl WorldModel {
    /// Index of the unit with identity `(team, id)`, if one is tracked.
    fn get_pac(&self, team: Team, id: i32) -> (r: Option<usize>)
        requires
            self.wf(),
        ensures
            r.is_none() <== !has_unit(self.pacs@, team, id),
            r.is_none() ==> !has_unit(self.pacs@, team, id),
            r matches Some(i) ==> i < self.pacs@.len() && self.pacs@[i as int].team == team
                && self.pacs@[i as int].id == id,
    {
        let mut i: usize = 0;
        while i < self.pacs.len()
            invariant
                0 <= i <= self.pacs@.len(),
                forall|j: int|
                    0 <= j < i ==> !(self.pacs@[j].team == team && self.pacs@[j].id == id),
            decreases self.pacs@.len() - i,
        {
            if self.pacs[i].team == team && self.pacs[i].id == id {
                return Some(i);
            }
            i = i + 1;
        }
        None
    }

    /// Records a sighting of unit `(team, id)`: a tracked unit has its
    /// properties replaced, an unknown one is added. Units are never removed,
    /// so a unit out of sight keeps its last known properties.
    pub fn upsert_unit(&mut self, team: Team, id: i32, prop: PacProperties)
        requires
            old(self).wf(),
            team != Team::Unknown,
        ensures
            final(self).wf(),
            final(self).pacs@ == after_upsert(old(self).pacs@, team, id, prop),
            final(self).pellets@ == old(self).pellets@,
            final(self).dim == old(self).dim,
            final(self).grid@ == old(self).grid@,
            final(self).turn == old(self).turn,
            final(self).turn_start == old(self).turn_start,
            final(self).my_score == old(self).my_score,
            final(self).opp_score == old(self).opp_score,
    {
        let ghost before = self.pacs@;
        match self.get_pac(team, id) {
            Some(i) => {
                let mut pac = self.pacs[i];
                pac.update(prop);
                self.pacs.set(i, pac);
                proof {
                    assert forall|j: int| 0 <= j < before.len() && j != i implies !(before[j].team
                        == team && before[j].id == id) by {
                        if j < i {
                            assert(!(before[j].team == before[i as int].team && before[j].id
                                == before[i as int].id));
                        } else {
                            assert(!(before[i as int].team == before[j].team && before[i as int].id
                                == before[j].id));
                        }
                    }
                    assert(self.pacs@ == after_upsert(before, team, id, prop));
                }
            },
            None => {
                self.pacs.push(Pac::new(team, id, Some(prop)));
                assert(self.pacs@ == after_upsert(before, team, id, prop));
            },
        }
    }

    /// Keeps `pellet` as the one at its position, replacing any other there.
    fn insert_pellet(&mut self, pellet: Pellet)
        requires
            pellets_unique(old(self).pellets@),
        ensures
            pellets_unique(final(self).pellets@),
            forall|q: Position|
                #[trigger] find_pellet(final(self).pellets@, q) == if q == pellet.pos {
                    Some(pellet)
                } else {
                    find_pellet(old(self).pellets@, q)
                },
            final(self).pacs@ == old(self).pacs@,
            final(self).dim == old(self).dim,
            final(self).grid@ == old(self).grid@,
            final(self).turn == old(self).turn,
            final(self).turn_start == old(self).turn_start,
            final(self).my_score == old(self).my_score,
            final(self).opp_score == old(self).opp_score,
    {
        let ghost before = self.pellets@;
        let found = self.pellet_index(pellet.pos);
        if let Some(i) = found {
            self.pellets.set(i, pellet);
            proof {
                let after = self.pellets@;
                assert forall|a: int, b: int| 0 <= a < b < after.len() implies after[a].pos
                    != after[b].pos by {}
                assert forall|q: Position| #[trigger]
                    find_pellet(after, q) == if q == pellet.pos {
                        Some(pellet)
                    } else {
                        find_pellet(before, q)
                    } by {
                    lemma_find_pellet(before, q);
                    lemma_find_pellet(after, q);
                    if q != pellet.pos {
                        if find_pellet(before, q).is_some() {
                            let k = choose|k: int| 0 <= k < before.len() && before[k].pos == q;
                            assert(after[k] == before[k]);
                        } else {
                            assert forall|k: int| 0 <= k < after.len() implies after[k].pos
                                != q by {
                                if k != i {
                                    assert(after[k] == before[k]);
                                }
                            }
                        }
                    } else {
                        assert(after[i as int] == pellet);
                    }
                }
            }
        } else {
            self.pellets.push(pellet);
            proof {
                let after = self.pellets@;
                assert(after.drop_last() == before);
                assert forall|q: Position| #[trigger]
                    find_pellet(after, q) == if q == pellet.pos {
                        Some(pellet)
                    } else {
                        find_pellet(before, q)
                    } by {}
            }
        }
    }

    /// Forgets all pellets and keeps those of `list` instead, one per
    /// position: where `list` names a position twice, the later one wins.
    pub fn replace_pellets(&mut self, list: Vec<Pellet>)
        requires
            old(self).wf(),
        ensures
            final(self).wf(),
            forall|q: Position|
                #[trigger] final(self).pellet_lookup(q) == find_pellet(list@, q),
            final(self).pacs@ == old(self).pacs@,
            final(self).dim == old(self).dim,
            final(self).grid@ == old(self).grid@,
            final(self).turn == old(self).turn,
            final(self).turn_start == old(self).turn_start,
            final(self).my_score == old(self).my_score,
            final(self).opp_score == old(self).opp_score,
    {
        self.pellets = Vec::new();
        let mut i: usize = 0;
        while i < list.len()
            invariant
                0 <= i <= list@.len(),
                self.wf(),
                forall|q: Position|
                    #[trigger] find_pellet(self.pellets@, q) == find_pellet(
                        list@.subrange(0, i as int),
                        q,
                    ),
                self.pacs@ == old(self).pacs@,
                self.dim == old(self).dim,
                self.grid@ == old(self).grid@,
                self.turn == old(self).turn,
                self.turn_start == old(self).turn_start,
                self.my_score == old(self).my_score,
                self.opp_score == old(self).opp_score,
            decreases list@.len() - i,
        {
            let p = list[i];
            self.insert_pellet(p);
            proof {
                assert(list@.subrange(0, i as int + 1).drop_last() == list@.subrange(0, i as int));
            }
            i = i + 1;
        }
        assert(list@.subrange(0, list@.len() as int) == list@);
    }

    /// The pellet visible at `pos` this turn, if any.
    pub fn pellet_at(&self, pos: Position) -> (r: Option<&Pellet>)
        requires
            self.wf(),
        ensures
            r.is_some() == self.pellet_lookup(pos).is_some(),
            r matches Some(p) ==> self.pellet_lookup(pos) == Some(*p),
    {
        proof {
            lemma_find_pellet(self.pellets@, pos);
        }
        match self.pellet_index(pos) {
            Some(i) => Some(&self.pellets[i]),
            None => None,
        }
    }

    /// Index of the pellet at `pos`, if any.
    fn pellet_index(&self, pos: Position) -> (r: Option<usize>)
        ensures
            r.is_none() ==> forall|j: int| 0 <= j < self.pellets@.len() ==> self.pellets@[j].pos != pos,
            r matches Some(i) ==> i < self.pellets@.len() && self.pellets@[i as int].pos == pos,
    {
        let mut i: usize = 0;
        while i < self.pellets.len()
            invariant
                0 <= i <= self.pellets@.len(),
                forall|j: int| 0 <= j < i ==> self.pellets@[j].pos != pos,
            decreases self.pellets@.len() - i,
        {
            let p = &self.pellets[i];
            if p.pos.0 == pos.0 && p.pos.1 == pos.1 {
                return Some(i);
            }
            i = i + 1;
        }
        None
    }

    /// All pellets visible this turn.
    pub fn get_pellets(&self) -> (r: Vec<&Pellet>)
        ensures
            r@.len() == self.pellets@.len(),
            forall|i: int| 0 <= i < r@.len() ==> *r@[i] == self.pellets@[i],
    {
        let mut out: Vec<&Pellet> = Vec::new();
        let mut i: usize = 0;
        while i < self.pellets.len()
            invariant
                0 <= i <= self.pellets@.len(),
                out@.len() == i,
                forall|j: int| 0 <= j < i ==> *out@[j] == self.pellets@[j],
            decreases self.pellets@.len() - i,
        {
            out.push(&self.pellets[i]);
            i = i + 1;
        }
        out
    }

    /// The tracked units of `team`, in the order they were first seen. Units
    /// out of sight are included with their last known properties.
    pub fn visible_units_for(&self, team: Team) -> (r: Vec<&Pac>)
        ensures
            r@.len() == units_of(self.pacs@, team).len(),
            forall|i: int| 0 <= i < r@.len() ==> *r@[i] == units_of(self.pacs@, team)[i],
    {
        let mut out: Vec<&Pac> = Vec::new();
        let mut i: usize = 0;
        while i < self.pacs.len()
            invariant
                0 <= i <= self.pacs@.len(),
                out@.len() == units_of(self.pacs@.subrange(0, i as int), team).len(),
                forall|j: int|
                    0 <= j < out@.len() ==> *out@[j] == units_of(
                        self.pacs@.subrange(0, i as int),
                        team,
                    )[j],
            decreases self.pacs@.len() - i,
        {
            assert(self.pacs@.subrange(0, i as int + 1).drop_last() == self.pacs@.subrange(
                0,
                i as int,
            ));
            if self.pacs[i].team == team {
                out.push(&self.pacs[i]);
            }
            i = i + 1;
        }
        assert(self.pacs@.subrange(0, self.pacs@.len() as int) == self.pacs@);
        out
    }

    /// The units of the controlling team, in the order they were first seen.
    pub fn get_team_pacs(&self) -> (r: Vec<&Pac>)
        ensures
            r@.len() == units_of(self.pacs@, Team::Us).len(),
            forall|i: int| 0 <= i < r@.len() ==> *r@[i] == units_of(self.pacs@, Team::Us)[i],
    {
        self.visible_units_for(Team::Us)
    }
}

} // verus!
