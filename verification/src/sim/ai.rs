//! What the humans know and where they are going.
//!
//! The humans never see through rock. What they have instead is word of
//! mouth: a human that spots the amoeba reports where it was, and the report
//! (a rumor) is what the rest walk to once they lose sight of it. A report
//! near one already on the books moves that one rather than adding another,
//! reports go stale, and only a handful are kept.

use vstd::prelude::*;

use super::actors::{is_militia_family, is_organelle, is_tank_family, ActorId, Kind};
use super::grid::{rand_index, taxi_spec, Coord};
use super::schedule::TURN;
use super::mapgen::sort_desc;
use super::{lemma_occupancy_same_bodies, same_bodies, Passable, Rumor, Sim};

verus! {

/// Turns a rumor stays believable.
pub const RUMOR_LIFE: u64 = 40;
/// How close a new report must be to an old one to move it rather than add
/// another.
pub const RUMOR_MERGE: i32 = 6;
/// Reports kept at once; the oldest goes first.
pub const MAX_RUMORS: usize = 8;
/// How close counts as having arrived somewhere.
pub const ARRIVED: i32 = 2;
/// What a scout costs out of a wave's budget.
pub const SCOUT_COST: i32 = 2;
/// What a hunter costs.
pub const HUNTER_COST: i32 = 3;
/// What a tank costs.
pub const TANK_COST: i32 = 2;
/// What a mech costs.
pub const MECH_COST: i32 = 3;
/// Soldiers bought together in one draw.
pub const MILITIA_GROUP: i32 = 3;
/// The shortest walk a caravan will make to a gate.
pub const CONVOY_MIN: i32 = 12;
/// How many of the furthest gates a caravan chooses among.
pub const CONVOY_CHOICES: usize = 4;
/// How far a maw smells, in steps.
pub const HUNGER_RANGE: i32 = 2;

/// Manhattan distance, widened so that any two coordinates fit.
pub fn taxi_wide(a: Coord, b: Coord) -> (d: i64)
    ensures
        d == taxi_spec(a, b),
{
    let dx = a.x as i64 - b.x as i64;
    let dy = a.y as i64 - b.y as i64;
    (if dx < 0 { -dx } else { dx }) + (if dy < 0 { -dy } else { dy })
}

/// The first rumor at or after `i` within merging distance of `pos`, as an
/// index, or the length if there is none.
pub open spec fn merge_from(rs: Seq<Rumor>, pos: Coord, i: int) -> int
    decreases rs.len() - i,
{
    if i < 0 || i >= rs.len() {
        rs.len() as int
    } else if taxi_spec(rs[i].pos, pos) <= RUMOR_MERGE {
        i
    } else {
        merge_from(rs, pos, i + 1)
    }
}

/// The rumor list after a report at `pos` that stays news until `until`:
/// the first rumor close enough moves there; otherwise the report is added
/// at the end and the oldest dropped if there are too many.
pub open spec fn reported(rs: Seq<Rumor>, pos: Coord, until: u64) -> Seq<Rumor> {
    let k = merge_from(rs, pos, 0);
    if k < rs.len() {
        rs.update(k, Rumor { pos, until })
    } else if rs.len() + 1 > MAX_RUMORS {
        rs.push(Rumor { pos, until }).drop_first()
    } else {
        rs.push(Rumor { pos, until })
    }
}

impl Sim {
    /// Report the amoeba at a cell: a report near one already on the books
    /// moves that one, so a long fight leaves one rumor that follows it
    /// rather than a trail of stale ones. It stays news for
    /// [`RUMOR_LIFE`] turns from now.
    pub fn raise_rumor(&mut self, pos: Coord)
        requires
            old(self).inv(),
        ensures
            final(self).inv(),
            old(self).kept_setup(&*final(self)),
            final(self).rumors_spec() == reported(
                old(self).rumors_spec(),
                pos,
                (old(self).queue().spec_time() + RUMOR_LIFE * TURN) as u64,
            ),
            old(self).rumors_only(&*final(self)),
    {
        let until = self.schedule.time() + RUMOR_LIFE * TURN;
        let ghost rs = self.rumors@;
        assert(merge_from(rs, pos, rs.len() as int) == rs.len());
        let mut k: usize = 0;
        while k < self.rumors.len()
            invariant
                old(self).kept_setup(&*self),
                *self == *old(self),
                self.inv(),
                self.rumors@ == rs,
                until == old(self).queue().spec_time() + RUMOR_LIFE * TURN,
                k <= rs.len(),
                merge_from(rs, pos, 0) == merge_from(rs, pos, k as int),
            decreases rs.len() - k,
        {
            if taxi_wide(self.rumors[k].pos, pos) <= RUMOR_MERGE as i64 {
                self.rumors.set(k, Rumor { pos, until });
                assert(merge_from(rs, pos, k as int) == k);
                return ;
            }
            k = k + 1;
        }
        self.rumors.push(Rumor { pos, until });
        if self.rumors.len() > MAX_RUMORS {
            let ghost pushed = self.rumors@;
            self.rumors.remove(0);
            proof {
                assert(self.rumors@ =~= pushed.drop_first());
            }
        }
    }

    /// Drop the reports nobody believes any more: those no longer news now.
    pub fn forget_stale_rumors(&mut self)
        requires
            old(self).inv(),
        ensures
            final(self).inv(),
            old(self).kept_setup(&*final(self)),
            final(self).rumors_spec() == old(self).rumors_spec().filter(
                |r: Rumor| r.until > old(self).queue().spec_time(),
            ),
            old(self).rumors_only(&*final(self)),
    {
        let now = self.schedule.time();
        let ghost rs = self.rumors@;
        let mut kept: Vec<Rumor> = Vec::new();
        let mut k: usize = 0;
        while k < self.rumors.len()
            invariant
                old(self).kept_setup(&*self),
                self.rumors@ == rs,
                k <= rs.len(),
                kept@ == rs.take(k as int).filter(|r: Rumor| r.until > now),
            decreases rs.len() - k,
        {
            let r = self.rumors[k];
            proof {
                assert(rs.take(k + 1) == rs.take(k as int).push(r));
                rs.take(k as int).lemma_filter_push(r, |x: Rumor| x.until > now);
            }
            if r.until > now {
                kept.push(r);
            }
            k = k + 1;
        }
        proof {
            assert(rs.take(k as int) == rs);
        }
        self.rumors = kept;
    }

    /// The freshest report worth walking to for this actor: the newest one
    /// more than [`ARRIVED`] steps from where it stands. Nothing for a dead
    /// actor.
    pub fn rumor_goal(&self, id: ActorId) -> (r: Option<Coord>)
        requires
            self.inv(),
        ensures
            !self.live(id) ==> r is None,
            self.live(id) ==> match r {
                Some(c) => exists|k: int|
                    0 <= k < self.rumors_spec().len() && #[trigger] self.rumors_spec()[k].pos == c && taxi_spec(
                        c,
                        self.actor(id).pos,
                    ) > ARRIVED && forall|j: int|
                        k < j < self.rumors_spec().len() ==> taxi_spec(
                            #[trigger] self.rumors_spec()[j].pos,
                            self.actor(id).pos,
                        ) <= ARRIVED,
                None => forall|j: int|
                    0 <= j < self.rumors_spec().len() ==> taxi_spec(
                        #[trigger] self.rumors_spec()[j].pos,
                        self.actor(id).pos,
                    ) <= ARRIVED,
            },
    {
        let from = match self.actors.get(id) {
            Some(a) => a.pos,
            None => {
                return None;
            },
        };
        let mut k: usize = self.rumors.len();
        while k > 0
            invariant
                self.inv(),
                self.live(id),
                from == self.actor(id).pos,
                k <= self.rumors@.len(),
                forall|j: int| k <= j < self.rumors@.len() ==> taxi_spec(#[trigger] self.rumors@[j].pos, from) <= ARRIVED,
            decreases k,
        {
            k = k - 1;
            let p = self.rumors[k].pos;
            if taxi_wide(p, from) > ARRIVED as i64 {
                assert(self.rumors_spec()[k as int].pos == p);
                return Some(p);
            }
        }
        None
    }

    /// The chamber nearest a cell among those more than [`ARRIVED`] steps
    /// from it, the first listed on a tie; nothing if every chamber is that
    /// close.
    pub fn nearest_junction(&self, from: Coord) -> (r: Option<Coord>)
        ensures
            match r {
                Some(c) => exists|k: int|
                    0 <= k < self.junctions_spec().len() && #[trigger] self.junctions_spec()[k] == c && taxi_spec(
                        c,
                        from,
                    ) > ARRIVED && (forall|j: int|
                        0 <= j < self.junctions_spec().len() && taxi_spec(#[trigger] self.junctions_spec()[j], from)
                            > ARRIVED ==> taxi_spec(self.junctions_spec()[j], from) >= taxi_spec(c, from)) && (forall|j: int|
                        0 <= j < k && taxi_spec(#[trigger] self.junctions_spec()[j], from) > ARRIVED ==> taxi_spec(
                            self.junctions_spec()[j],
                            from,
                        ) > taxi_spec(c, from)),
                None => forall|j: int|
                    0 <= j < self.junctions_spec().len() ==> taxi_spec(#[trigger] self.junctions_spec()[j], from)
                        <= ARRIVED,
            },
    {
        let mut best: Option<(Coord, i64)> = None;
        let ghost mut bk: int = 0;
        let mut k: usize = 0;
        while k < self.junctions.len()
            invariant
                k <= self.junctions@.len(),
                best is None ==> forall|j: int| 0 <= j < k ==> taxi_spec(#[trigger] self.junctions@[j], from) <= ARRIVED,
                best matches Some(b) ==> {
                    &&& 0 <= bk < k
                    &&& self.junctions@[bk] == b.0
                    &&& b.1 == taxi_spec(b.0, from)
                    &&& b.1 > ARRIVED
                    &&& forall|j: int|
                        0 <= j < k && taxi_spec(#[trigger] self.junctions@[j], from) > ARRIVED ==> taxi_spec(
                            self.junctions@[j],
                            from,
                        ) >= b.1
                    &&& forall|j: int|
                        0 <= j < bk && taxi_spec(#[trigger] self.junctions@[j], from) > ARRIVED ==> taxi_spec(
                            self.junctions@[j],
                            from,
                        ) > b.1
                },
            decreases self.junctions@.len() - k,
        {
            let c = self.junctions[k];
            let d = taxi_wide(c, from);
            if d > ARRIVED as i64 {
                let better = match best {
                    None => true,
                    Some(b) => d < b.1,
                };
                if better {
                    best = Some((c, d));
                    proof {
                        bk = k as int;
                    }
                }
            }
            k = k + 1;
        }
        match best {
            Some(b) => {
                assert(self.junctions_spec()[bk] == b.0);
                Some(b.0)
            },
            None => None,
        }
    }

    /// The one cell a gate opens onto: its first neighbour, left, right, up,
    /// down, that is not solid rock. Measured against the rock rather than
    /// against walkability, because a doorway with somebody standing in it is
    /// still the doorway. Nothing for a gate that is gone or walled in.
    pub fn gate_door(&self, gate: ActorId) -> (r: Option<Coord>)
        requires
            self.inv(),
        ensures
            !self.live(gate) ==> r is None,
            self.live(gate) ==> ({
                let n = self.map().adjacent_spec(self.actor(gate).pos, false);
                match r {
                    Some(c) => exists|k: int|
                        0 <= k < n.len() && n[k] == c && !self.wall_spec(c) && forall|j: int|
                            0 <= j < k ==> #[trigger] self.wall_spec(n[j]),
                    None => forall|j: int| 0 <= j < n.len() ==> #[trigger] self.wall_spec(n[j]),
                }
            }),
    {
        let pos = match self.actors.get(gate) {
            Some(a) => a.pos,
            None => {
                return None;
            },
        };
        assert(self.live(gate));
        let next = self.grid.adjacent(pos);
        let mut k: usize = 0;
        while k < next.len()
            invariant
                self.inv(),
                self.live(gate),
                pos == self.actor(gate).pos,
                next@ == self.map().adjacent_spec(pos, false),
                k <= next@.len(),
                forall|j: int| 0 <= j < k ==> #[trigger] self.wall_spec(next@[j]),
            decreases next@.len() - k,
        {
            if !self.is_wall(next[k]) {
                return Some(next[k]);
            }
            k = k + 1;
        }
        None
    }

    /// Nothing differs between the two but the rumors.
    pub closed spec fn rumors_only(&self, other: &Sim) -> bool {
        *other == (Sim { rumors: other.rumors, ..*self })
    }

    /// Hearing a rumor moves nobody.
    pub proof fn lemma_rumors_unmoved(&self, other: &Sim)
        requires
            self.rumors_only(other),
        ensures
            self.unmoved(other),
            other.inv() == self.inv(),
            forall|x: ActorId| #[trigger] other.live(x) == self.live(x) && other.actor(x) == self.actor(x),
            other.queue() == self.queue(),
            other.turn_spec() == self.turn_spec(),
            other.phase_spec() == self.phase_spec(),
            other.active_spec() == self.active_spec(),
    {
    }

    /// Solid rock: unwalkable and holding nothing.
    pub closed spec fn wall_spec(&self, c: Coord) -> bool {
        !self.map().spec_cell(c).walkable && self.occupant(c) is None && self.lying(c) is None
    }

    /// Whether a maw of kind `maw` would bite what is on `cell`: an
    /// unarmoured soldier, armour too for a reinforced maw, or anything lying
    /// on the floor.
    pub closed spec fn bites(&self, maw: Kind, cell: Coord) -> bool {
        ||| (self.occupant(cell) matches Some(a) && self.live(a) && ((is_militia_family(self.actor(a).kind)
            && !is_tank_family(self.actor(a).kind)) || (maw == Kind::ReinforcedMaw && is_tank_family(
            self.actor(a).kind,
        ))))
        ||| self.lying(cell) is Some
    }

    /// The executable form of [`Sim::bites`].
    pub fn hungry_for(&self, maw: Kind, cell: Coord) -> (b: bool)
        requires
            self.inv(),
        ensures
            b == self.bites(maw, cell),
    {
        match self.actor_at(cell) {
            Some(id) => match self.actors.get(id) {
                Some(a) => {
                    let unarmoured = is_militia_family(a.kind) && !is_tank_family(a.kind);
                    if unarmoured || (maw == Kind::ReinforcedMaw && is_tank_family(a.kind)) {
                        return true;
                    }
                },
                None => {},
            },
            None => {},
        }
        self.item_at(cell).is_some()
    }
}


impl Sim {
    /// Whether an organelle stands on `c`: maws and tentacles travel only
    /// through their own body, and this is the test they use.
    pub fn body_at(&self, c: Coord) -> (b: bool)
        requires
            self.inv(),
        ensures
            b == self.passable_spec(Passable::Body, c),
    {
        match self.actor_at(c) {
            Some(a) => match self.actors.get(a) {
                Some(x) => is_organelle(x.kind),
                None => false,
            },
            None => false,
        }
    }

    /// One step of a maw's or tentacle's crawl, through your own body only:
    /// a shortest route through the body to the nearest of `targets` is
    /// picked at random, and its first step taken if it bites or is body.
    pub(crate) fn advance_toward(&mut self, id: ActorId, targets: &Vec<Coord>)
        requires
            old(self).inv(),
        ensures
            final(self).inv(),
            old(self).kept_setup(&*final(self)),
            !old(self).live(id) ==> *final(self) == *old(self),
    {
        let pos = match self.actors.get(id) {
            Some(a) => a.pos,
            None => {
                return ;
            },
        };
        let paths = self.shortest_paths_to(pos, targets.as_slice(), Passable::Body);
        if paths.len() > 2147483647usize {
            return ;
        }
        let pick = match rand_index(&mut self.rng, paths.len()) {
            Some(i) => i,
            None => {
                return ;
            },
        };
        if paths[pick].len() < 2 {
            return ;
        }
        let next = paths[pick][1];
        let kind = match self.actors.get(id) {
            Some(a) => a.kind,
            None => {
                return ;
            },
        };
        if self.hungry_for(kind, next) || self.body_at(next) {
            self.attack_move(id, next);
        }
    }

    /// A maw smells [`HUNGER_RANGE`] cells in every direction and crawls, through
    /// your own body, at the nearest of whatever it would bite. With nothing
    /// in range to bite, nothing happens.
    pub fn maw_act(&mut self, id: ActorId)
        requires
            old(self).inv(),
        ensures
            final(self).inv(),
            old(self).kept_setup(&*final(self)),
            !old(self).live(id) ==> *final(self) == *old(self),
            old(self).live(id) && (forall|c: Coord|
                old(self).map().spec_in_bounds(c) && taxi_spec(c, old(self).actor(id).pos) <= HUNGER_RANGE
                    ==> !#[trigger] old(self).bites(old(self).actor(id).kind, c)) ==> *final(self) == *old(self),
    {
        let (kind, pos) = match self.actors.get(id) {
            Some(a) => (a.kind, a.pos),
            None => {
                return ;
            },
        };
        proof {
            self.lemma_live_on_map(id);
        }
        let cells = self.grid.cells_in_diamond(pos, HUNGER_RANGE);
        let mut desire: Vec<Coord> = Vec::new();
        let mut nearest: i32 = i32::MAX;
        let mut k: usize = 0;
        while k < cells.len()
            invariant
                old(self).kept_setup(&*self),
                self.inv(),
                *self == *old(self),
                self.live(id),
                forall|i: int| 0 <= i < desire@.len() ==> self.bites(kind, #[trigger] desire@[i]) && taxi_spec(desire@[i], pos) <= HUNGER_RANGE,
                kind == self.actor(id).kind,
                pos == self.actor(id).pos,
                self.map().spec_in_bounds(pos),
                k <= cells@.len(),
                forall|i: int| 0 <= i < cells@.len() ==> self.map().spec_in_bounds(#[trigger] cells@[i]) && taxi_spec(cells@[i], pos) <= HUNGER_RANGE,
                forall|i: int| 0 <= i < desire@.len() ==> self.map().spec_in_bounds(#[trigger] desire@[i]) && taxi_spec(desire@[i], pos) >= nearest,
                desire@.len() == 0 <==> nearest == i32::MAX,
                desire@.len() > 0 ==> exists|i: int| 0 <= i < desire@.len() && #[trigger] taxi_spec(desire@[i], pos) == nearest,
                desire@.len() == 0 ==> forall|i: int| 0 <= i < k ==> !#[trigger] self.bites(kind, cells@[i]),
            decreases cells@.len() - k,
        {
            let c = cells[k];
            if self.hungry_for(kind, c) {
                proof {
                    self.map().lemma_taxi_fits(c, pos);
                }
                let d = c.taxi(pos);
                let ghost prev = desire@;
                let ghost was = nearest;
                desire.push(c);
                if d < nearest {
                    nearest = d;
                }
                proof {
                    assert(taxi_spec(desire@[desire@.len() - 1], pos) == d);
                    if d >= was && prev.len() > 0 {
                        let w = choose|i: int| 0 <= i < prev.len() && #[trigger] taxi_spec(prev[i], pos) == was;
                        assert(desire@[w] == prev[w]);
                        assert(taxi_spec(desire@[w], pos) == nearest);
                    }
                    assert forall|i: int| 0 <= i < desire@.len() implies self.bites(kind, #[trigger] desire@[i]) && taxi_spec(desire@[i], pos) <= HUNGER_RANGE by {
                        if i < prev.len() {
                            assert(desire@[i] == prev[i]);
                        }
                    }
                }
            }
            k = k + 1;
        }
        if desire.len() == 0 {
            proof {
                assert forall|c: Coord|
                    self.map().spec_in_bounds(c) && taxi_spec(c, pos) <= HUNGER_RANGE implies !#[trigger] self.bites(kind, c) by {
                    self.map().lemma_wf();
                    assert(cells@.contains(c));
                    let i = choose|i: int| 0 <= i < cells@.len() && cells@[i] == c;
                    assert(!self.bites(kind, cells@[i]));
                }
            }
            return ;
        }
        let mut targets: Vec<Coord> = Vec::new();
        let mut m: usize = 0;
        while m < desire.len()
            invariant
                old(self).kept_setup(&*self),
                self.inv(),
                *self == *old(self),
                self.live(id),
                kind == self.actor(id).kind,
                pos == self.actor(id).pos,
                desire@.len() > 0,
                self.bites(kind, desire@[0]) && taxi_spec(desire@[0], pos) <= HUNGER_RANGE,
                m <= desire@.len(),
                forall|i: int| 0 <= i < desire@.len() ==> self.map().spec_in_bounds(#[trigger] desire@[i]),
                self.map().spec_in_bounds(pos),
            decreases desire@.len() - m,
        {
            let c = desire[m];
            assert(self.map().spec_in_bounds(desire@[m as int]));
            proof {
                self.map().lemma_taxi_fits(c, pos);
            }
            if c.taxi(pos) == nearest {
                targets.push(c);
            }
            m = m + 1;
        }
        proof {
            assert(old(self).bites(old(self).actor(id).kind, desire@[0]));
        }
        self.advance_toward(id, &targets);
    }
}


/// `added` is `n` soldiers.
pub open spec fn soldiers(added: Seq<Kind>, n: int) -> bool {
    added.len() == n && forall|i: int| 0 <= i < n ==> #[trigger] added[i] == Kind::Militia
}

/// One draw out of a wave's budget: what it may add and what it leaves.
/// A group of up to three soldiers is always on offer; a mech or a hunter
/// once three can be spent, a tank or a scout when exactly two can.
pub open spec fn draw_ok(budget: int, added: Seq<Kind>, left: int) -> bool {
    ||| (soldiers(added, if budget < MILITIA_GROUP { budget } else { MILITIA_GROUP as int }) && left == budget - (
        if budget < MILITIA_GROUP { budget } else { MILITIA_GROUP as int }))
    ||| (budget >= MECH_COST && added == seq![Kind::Mech] && left == budget - MECH_COST)
    ||| (budget >= HUNTER_COST && added == seq![Kind::Hunter] && left == budget - HUNTER_COST)
    ||| (TANK_COST <= budget < MECH_COST && added == seq![Kind::Tank] && left == budget - TANK_COST)
    ||| (SCOUT_COST <= budget < HUNTER_COST && added == seq![Kind::Scout] && left == budget - SCOUT_COST)
}

impl Sim {
    /// Spend part of a wave's budget, queueing what was bought, and report
    /// what is left. Tanks and scouts can only be bought at exactly two, and
    /// mechs and hunters only at three or more, because the cheaper option is
    /// dropped from the draw as soon as the expensive one is affordable.
    pub fn add_new_militia(&mut self, budget: i32, queued: &mut Vec<Kind>) -> (left: i32)
        requires
            old(self).inv(),
            budget > 0,
        ensures
            final(self).inv(),
            old(self).kept_setup(&*final(self)),
            old(self).chance_only(&*final(self)),
            final(queued)@.len() >= old(queued)@.len(),
            final(queued)@.subrange(0, old(queued)@.len() as int) == old(queued)@,
            draw_ok(
                budget as int,
                final(queued)@.subrange(old(queued)@.len() as int, final(queued)@.len() as int),
                left as int,
            ),
            0 <= left < budget,
    {
        let ghost q0 = queued@;
        let mut allowed: Vec<u8> = Vec::new();
        allowed.push(0);
        if budget >= MECH_COST {
            allowed.push(1);
        } else if budget >= TANK_COST {
            allowed.push(2);
        }
        if budget >= HUNTER_COST {
            allowed.push(3);
        } else if budget >= SCOUT_COST {
            allowed.push(4);
        }
        let choice = match self.pick(allowed.as_slice()) {
            Some(c) => c,
            None => 0,
        };
        proof {
            if choice != 0 {
                let i = choose|i: int| 0 <= i < allowed@.len() && allowed@[i] == choice;
            }
        }
        if choice == 1 {
            queued.push(Kind::Mech);
            proof {
                assert(queued@.subrange(q0.len() as int, queued@.len() as int) =~= seq![Kind::Mech]);
                assert(queued@.subrange(0, q0.len() as int) =~= q0);
            }
            budget - MECH_COST
        } else if choice == 2 {
            queued.push(Kind::Tank);
            proof {
                assert(queued@.subrange(q0.len() as int, queued@.len() as int) =~= seq![Kind::Tank]);
                assert(queued@.subrange(0, q0.len() as int) =~= q0);
            }
            budget - TANK_COST
        } else if choice == 3 {
            queued.push(Kind::Hunter);
            proof {
                assert(queued@.subrange(q0.len() as int, queued@.len() as int) =~= seq![Kind::Hunter]);
                assert(queued@.subrange(0, q0.len() as int) =~= q0);
            }
            budget - HUNTER_COST
        } else if choice == 4 {
            queued.push(Kind::Scout);
            proof {
                assert(queued@.subrange(q0.len() as int, queued@.len() as int) =~= seq![Kind::Scout]);
                assert(queued@.subrange(0, q0.len() as int) =~= q0);
            }
            budget - SCOUT_COST
        } else {
            let group = if budget < MILITIA_GROUP {
                budget
            } else {
                MILITIA_GROUP
            };
            let mut k: i32 = 0;
            while k < group
                invariant
                    old(self).kept_setup(&*self),
                    0 <= k <= group,
                    queued@.len() == q0.len() + k,
                    queued@.subrange(0, q0.len() as int) == q0,
                    forall|i: int| q0.len() <= i < queued@.len() ==> #[trigger] queued@[i] == Kind::Militia,
                decreases group - k,
            {
                let ghost before = queued@;
                queued.push(Kind::Militia);
                proof {
                    assert(queued@.subrange(0, q0.len() as int) =~= before.subrange(0, q0.len() as int));
                }
                k = k + 1;
            }
            proof {
                let added = queued@.subrange(q0.len() as int, queued@.len() as int);
                assert forall|i: int| 0 <= i < group implies #[trigger] added[i] == Kind::Militia by {
                    assert(added[i] == queued@[q0.len() + i]);
                }
            }
            budget - group
        }
    }
}

impl Sim {
    /// `c` is the doorway of `gate`: its first neighbour, in the order
    /// [`Grid::adjacent`] lists them, that is not wall.
    pub closed spec fn door_is(&self, gate: ActorId, c: Coord) -> bool {
        let n = self.map().adjacent_spec(self.actor(gate).pos, false);
        &&& self.live(gate)
        &&& exists|k: int|
            0 <= k < n.len() && n[k] == c && !self.wall_spec(c) && forall|j: int| 0 <= j < k ==> #[trigger] self.wall_spec(n[j])
    }

    /// A live human has some gate whose doorway lies at least
    /// [`CONVOY_MIN`] steps away.
    pub closed spec fn convoy_possible(&self, id: ActorId) -> bool {
        &&& self.live(id)
        &&& exists|k: int, c: Coord|
            0 <= k < self.cities@.len() && #[trigger] self.door_is(self.cities@[k], c) && taxi_spec(c, self.actor(id).pos)
                >= CONVOY_MIN
    }

    /// A gate has one doorway at most.
    pub proof fn lemma_door_unique(&self, gate: ActorId, a: Coord, b: Coord)
        requires
            self.door_is(gate, a),
            self.door_is(gate, b),
        ensures
            a == b,
    {
        let n = self.map().adjacent_spec(self.actor(gate).pos, false);
        let ka = choose|k: int|
            0 <= k < n.len() && n[k] == a && !self.wall_spec(a) && forall|j: int| 0 <= j < k ==> #[trigger] self.wall_spec(n[j]);
        let kb = choose|k: int|
            0 <= k < n.len() && n[k] == b && !self.wall_spec(b) && forall|j: int| 0 <= j < k ==> #[trigger] self.wall_spec(n[j]);
        if ka < kb {
            assert(self.wall_spec(n[ka]));
        } else if kb < ka {
            assert(self.wall_spec(n[kb]));
        }
    }

    /// Give a caravan somewhere to be: the doorway of a gate at least
    /// [`CONVOY_MIN`] steps away, picked from the [`CONVOY_CHOICES`] furthest
    /// (ties in gate order), and remembered as its goal. Nothing for a dead
    /// caravan or when no gate is that far; then only the generator may have
    /// moved.
    pub fn assign_convoy_goal(&mut self, id: ActorId) -> (r: Option<Coord>)
        requires
            old(self).inv(),
        ensures
            final(self).inv(),
            old(self).kept_setup(&*final(self)),
            !old(self).live(id) ==> *final(self) == *old(self),
            r is None ==> old(self).chance_only(&*final(self)),
            old(self).unmoved(&*final(self)),
            r is Some <==> old(self).convoy_possible(id),
            r matches Some(g) ==> {
                &&& old(self).live(id)
                &&& taxi_spec(g, old(self).actor(id).pos) >= CONVOY_MIN
                &&& final(self).live(id)
                &&& final(self).arena()@ == old(self).arena()@.update(
                    id@ as int,
                    Some(super::actors::Actor {
                        orders: super::actors::Orders { goal: Some(g), ..old(self).actor(id).orders },
                        ..old(self).actor(id)
                    }),
                )
            },
    {
        let from = match self.actors.get(id) {
            Some(a) => a.pos,
            None => {
                return None;
            },
        };
        proof {
            self.lemma_live_on_map(id);
        }
        let mut keyed: Vec<(i32, Coord)> = Vec::new();
        let mut k: usize = 0;
        while k < self.cities.len()
            invariant
                old(self).kept_setup(&*self),
                self.inv(),
                self.live(id),
                from == self.actor(id).pos,
                self.map().spec_in_bounds(from),
                k <= self.cities@.len(),
                keyed@.len() <= k,
                forall|m: int| 0 <= m < keyed@.len() ==> (#[trigger] keyed@[m]).0 == taxi_spec(keyed@[m].1, from) && keyed@[m].0 >= CONVOY_MIN,
                *self == *old(self),
                (exists|j: int, c: Coord|
                    0 <= j < k && #[trigger] self.door_is(self.cities@[j], c) && taxi_spec(c, from) >= CONVOY_MIN) ==> keyed@.len()
                    > 0,
                keyed@.len() > 0 ==> self.convoy_possible(id),
            decreases self.cities@.len() - k,
        {
            let ghost kb = keyed@.len();
            let door_k = self.gate_door(self.cities[k]);
            proof {
                let g = self.cities@[k as int];
                if exists|c: Coord| #[trigger] self.door_is(g, c) && taxi_spec(c, from) >= CONVOY_MIN {
                    let c = choose|c: Coord| #[trigger] self.door_is(g, c) && taxi_spec(c, from) >= CONVOY_MIN;
                    let n = self.map().adjacent_spec(self.actor(g).pos, false);
                    let kc = choose|q: int|
                        0 <= q < n.len() && n[q] == c && !self.wall_spec(c) && forall|j: int| 0 <= j < q ==> #[trigger] self.wall_spec(n[j]);
                    if door_k is None {
                        assert(self.wall_spec(n[kc]));
                    } else {
                        assert(self.door_is(g, door_k->0));
                        self.lemma_door_unique(g, c, door_k->0);
                    }
                }
            }
            match door_k {
                Some(door) => {
                    proof {
                        let gate = self.cities@[k as int];
                        self.lemma_live_on_map(gate);
                        self.map().lemma_adjacent_spec(self.actor(gate).pos);
                        let n = self.map().adjacent_spec(self.actor(gate).pos, false);
                        let q = choose|q: int| 0 <= q < n.len() && n[q] == door && !self.wall_spec(door) && forall|j: int|
                            0 <= j < q ==> #[trigger] self.wall_spec(n[j]);
                        assert(self.map().spec_in_bounds(n[q]));
                        self.map().lemma_taxi_fits(door, from);
                    }
                    let d = taxi_wide(door, from);
                    if d >= CONVOY_MIN as i64 {
                        keyed.push((d as i32, door));
                        proof {
                            assert(self.door_is(self.cities@[k as int], door));
                            assert(self.convoy_possible(id));
                        }
                    }
                },
                None => {},
            }
            proof {
                assert forall|j: int, c: Coord|
                    0 <= j < k + 1 && #[trigger] self.door_is(self.cities@[j], c) && taxi_spec(c, from) >= CONVOY_MIN implies keyed@.len()
                    > 0 by {
                    if j < k {
                        assert(kb > 0);
                    }
                }
            }
            k = k + 1;
        }
        let ranked = sort_desc(&keyed);
        proof {
            ranked@.to_multiset_ensures();
            keyed@.to_multiset_ensures();
            assert forall|m: int| 0 <= m < ranked@.len() implies (#[trigger] ranked@[m]).0 == taxi_spec(ranked@[m].1, from) && ranked@[m].0 >= CONVOY_MIN by {
                assert(ranked@.to_multiset().count(ranked@[m]) > 0);
                assert(keyed@.contains(ranked@[m]));
                let z = choose|z: int| 0 <= z < keyed@.len() && keyed@[z] == ranked@[m];
            }
        }
        let mut doors: Vec<Coord> = Vec::new();
        let mut q: usize = 0;
        while q < ranked.len() && q < CONVOY_CHOICES
            invariant
                old(self).kept_setup(&*self),
                q <= ranked@.len(),
                q <= CONVOY_CHOICES,
                doors@.len() == q,
                forall|m: int| 0 <= m < ranked@.len() ==> (#[trigger] ranked@[m]).0 == taxi_spec(ranked@[m].1, from) && ranked@[m].0 >= CONVOY_MIN,
                forall|m: int| 0 <= m < q ==> taxi_spec(#[trigger] doors@[m], from) >= CONVOY_MIN,
            decreases ranked@.len() - q,
        {
            proof {
                assert(ranked@[q as int].0 >= CONVOY_MIN);
            }
            doors.push(ranked[q].1);
            q = q + 1;
        }
        proof {
            assert(ranked@.len() == keyed@.len()) by {
                assert(ranked@.to_multiset().len() == keyed@.to_multiset().len());
            }
            assert(doors@.len() <= CONVOY_CHOICES);
            assert(keyed@.len() > 0 ==> doors@.len() > 0);
            assert(doors@.len() > 0 ==> ranked@.len() > 0);
        }
        let goal = match self.pick(doors.as_slice()) {
            Some(g) => g,
            None => {
                return None;
            },
        };
        proof {
            let z = choose|z: int| 0 <= z < doors@.len() && doors@[z] == goal;
        }
        let ghost b = self.actors@;
        match self.actors.get_mut(id) {
            Some(a) => {
                a.orders.goal = Some(goal);
            },
            None => {},
        }
        proof {
            assert(same_bodies(b, self.actors@));
            lemma_occupancy_same_bodies(self.grid, b, self.actors@, self.actor_at@, self.items@, self.item_at@);
        }
        Some(goal)
    }
}


impl Sim {
    /// The first cell beside `c`, left, right, up, down, that a gate stands
    /// on, if any.
    pub fn gate_beside(&self, c: Coord) -> (r: Option<Coord>)
        requires
            self.inv(),
        ensures
            ({
                let n = self.map().adjacent_spec(c, false);
                match r {
                    Some(g) => exists|k: int|
                        0 <= k < n.len() && n[k] == g && self.gate_on(g) && forall|j: int|
                            0 <= j < k ==> !#[trigger] self.gate_on(n[j]),
                    None => forall|j: int| 0 <= j < n.len() ==> !#[trigger] self.gate_on(n[j]),
                }
            }),
    {
        let next = self.grid.adjacent(c);
        let mut k: usize = 0;
        while k < next.len()
            invariant
                self.inv(),
                next@ == self.map().adjacent_spec(c, false),
                k <= next@.len(),
                forall|j: int| 0 <= j < k ==> !#[trigger] self.gate_on(next@[j]),
            decreases next@.len() - k,
        {
            let n = next[k];
            if self.gate_at(n) {
                return Some(n);
            }
            k = k + 1;
        }
        None
    }
}

} // verus!
