//! What the humans do with their turns, and how the world's clock runs.
//!
//! Every human's turn has the same two halves: do what it said it would,
//! then say what it will do next. What it says is drawn over its head for
//! the whole of your turn, and a blow committed to a cell lands on that cell
//! whatever stands there when it arrives, so stepping aside is a real answer.
//!
//! With nobody of yours in sight a human does its job: a caravan makes for a
//! far gate and leaves through it, its escort keeps station on it, scouts
//! walk the chambers furthest from the gates, hunters walk down the freshest
//! rumor, and everyone else walks a beat outside that gate it came from.
use vstd::prelude::*;

use super::actors::{
    self, is_caravan, is_city, is_hunter_family, is_militia_family, is_npc, is_nucleus_family, is_organelle,
    is_tank_family, Actor, ActorId, Duty, Intent, IntentKind, Kind, Reticle,
};
use super::ai::{taxi_wide, ARRIVED};
use super::mapgen::sort_desc;
use super::effect::EffectKind;
use super::grid::{rand_inclusive, rand_index, taxi_spec, Coord};
use super::log::{decimal_text, join_text};
use super::{lemma_npc_same_bodies, lemma_occupancy_same_bodies, same_bodies, same_places, Command, Cue, Passable, Phase, Sim, UiMode};

verus! {

/// How close an escort keeps to its caravan before it stops closing.
pub const ESCORT_RANGE: i32 = 2;

/// Soldiers a gate assigns to a caravan it has just sent out.
pub const ESCORT_SIZE: i32 = 3;

/// How close a tank has to be before a tentacle gives ground.
pub const TERROR_RADIUS: i32 = 1;

/// What a tentacle or a human looks for when it looks around.
#[derive(Clone, Copy, PartialEq, Eq, Structural, Debug)]
pub enum Sought {
    /// Anything of yours.
    Mass,
    /// Any human but a caravan: what a tentacle hunts.
    Prey,
}

/// Whether an actor is what `s` looks for.
pub open spec fn sought_spec(s: Sought, a: Actor) -> bool {
    match s {
        Sought::Mass => a.slime > 0,
        Sought::Prey => is_militia_family(a.kind) && !is_caravan(a.kind),
    }
}

/// An intent to stand still at `at`.
pub open spec fn hold_at(at: Coord) -> Intent {
    Intent { kind: IntentKind::Hold, at }
}

/// Whether `i` is one step from `from` onto a neighbouring cell, or
/// standing still there.
pub open spec fn one_step(from: Coord, i: Intent) -> bool {
    ||| i == hold_at(from)
    ||| (taxi_spec(from, i.at) == 1 && (i.kind == IntentKind::Step || i.kind == IntentKind::Strike))
}

impl Sim {
    /// Whether `x` is the live actor standing on `c` and is of yours.
    pub closed spec fn mass_on(&self, c: Coord) -> bool {
        self.occupant(c) matches Some(x) && self.live(x) && self.actor(x).slime > 0
    }

    /// Commit a human to `intent`, or clear its commitment.
    fn set_intent(&mut self, id: ActorId, intent: Option<Intent>)
        requires
            old(self).inv(),
        ensures
            final(self).inv(),
            old(self).kept_setup(&*final(self)),
            *final(self) == (Sim { actors: final(self).actors, ..*old(self) }),
            old(self).live(id) ==> final(self).arena()@ == old(self).arena()@.update(
                id@ as int,
                Some(Actor { intent, ..old(self).actor(id) }),
            ),
            !old(self).live(id) ==> final(self).arena()@ == old(self).arena()@,
    {
        let ghost b = self.actors@;
        match self.actors.get_mut(id) {
            Some(a) => {
                a.intent = intent;
            },
            None => {},
        }
        proof {
            assert(same_bodies(b, self.actors@));
            lemma_occupancy_same_bodies(self.grid, b, self.actors@, self.actor_at@, self.items@, self.item_at@);
        }
    }

    /// Give a human a new goal.
    fn set_goal(&mut self, id: ActorId, goal: Option<Coord>)
        requires
            old(self).inv(),
        ensures
            final(self).inv(),
            old(self).kept_setup(&*final(self)),
            *final(self) == (Sim { actors: final(self).actors, ..*old(self) }),
            same_bodies(old(self).arena()@, final(self).arena()@),
            old(self).live(id) ==> final(self).actor(id).orders.goal == goal && final(self).arena()@ == old(
                self,
            ).arena()@.update(
                id@ as int,
                Some(Actor { orders: actors::Orders { goal, ..old(self).actor(id).orders }, ..old(self).actor(id) }),
            ),
            !old(self).live(id) ==> final(self).arena()@ == old(self).arena()@,
    {
        let ghost b = self.actors@;
        match self.actors.get_mut(id) {
            Some(a) => {
                a.orders.goal = goal;
            },
            None => {},
        }
        proof {
            assert(same_bodies(b, self.actors@));
            lemma_occupancy_same_bodies(self.grid, b, self.actors@, self.actor_at@, self.items@, self.item_at@);
        }
    }

    /// Give a human a new duty.
    fn set_duty(&mut self, id: ActorId, duty: Duty)
        requires
            old(self).inv(),
        ensures
            final(self).inv(),
            old(self).kept_setup(&*final(self)),
            *final(self) == (Sim { actors: final(self).actors, ..*old(self) }),
            same_bodies(old(self).arena()@, final(self).arena()@),
            old(self).live(id) ==> final(self).actor(id).orders.duty == duty,
            !old(self).live(id) ==> final(self).arena()@ == old(self).arena()@,
    {
        let ghost b = self.actors@;
        match self.actors.get_mut(id) {
            Some(a) => {
                a.orders.duty = duty;
            },
            None => {},
        }
        proof {
            assert(same_bodies(b, self.actors@));
            lemma_occupancy_same_bodies(self.grid, b, self.actors@, self.actor_at@, self.items@, self.item_at@);
        }
    }

    /// A roll of the run's generator in `[lo, hi]`; an empty range gives `lo`.
    fn roll(&mut self, lo: i32, hi: i32) -> (r: i32)
        requires
            old(self).inv(),
        ensures
            final(self).inv(),
            old(self).kept_setup(&*final(self)),
            old(self).chance_only(&*final(self)),
            hi <= lo ==> r == lo,
            lo < hi ==> lo <= r <= hi,
    {
        rand_inclusive(&mut self.rng, lo, hi)
    }

    /// A uniformly drawn index into `len` things, or nothing when there are
    /// none.
    fn roll_index(&mut self, len: usize) -> (r: Option<usize>)
        requires
            old(self).inv(),
            len <= i32::MAX,
        ensures
            final(self).inv(),
            old(self).kept_setup(&*final(self)),
            old(self).chance_only(&*final(self)),
            r is None <==> len == 0,
            r matches Some(i) ==> i < len,
    {
        rand_index(&mut self.rng, len)
    }

    /// A step onto a cell, named for what stands on it: a strike when
    /// something of yours does, a plain step otherwise, and standing still
    /// when the cell is where the human already is.
    pub fn step_intent(&self, from: Coord, to: Coord) -> (i: Intent)
        requires
            self.inv(),
        ensures
            to == from ==> i == hold_at(from),
            to != from ==> i.at == to && (i.kind == IntentKind::Strike <==> self.mass_on(to)) && (i.kind
                == IntentKind::Strike || i.kind == IntentKind::Step),
    {
        if to == from {
            return Intent { kind: IntentKind::Hold, at: from };
        }
        let strike = match self.actor_at(to) {
            Some(x) => match self.actors.get(x) {
                Some(a) => a.is_player_aligned(),
                None => false,
            },
            None => false,
        };
        if strike {
            Intent { kind: IntentKind::Strike, at: to }
        } else {
            Intent { kind: IntentKind::Step, at: to }
        }
    }

    /// Wander one cell, or stand still. Standing still is as likely as any
    /// one open direction.
    pub fn wander_intent(&mut self, id: ActorId) -> (i: Intent)
        requires
            old(self).inv(),
        ensures
            final(self).inv(),
            old(self).kept_setup(&*final(self)),
            old(self).chance_only(&*final(self)),
            !old(self).live(id) ==> i == hold_at(Coord { x: 0, y: 0 }),
            old(self).live(id) ==> one_step(old(self).actor(id).pos, i) && (i.at == old(self).actor(id).pos
                || old(self).map().spec_cell(i.at).walkable),
    {
        let from = match self.actors.get(id) {
            Some(a) => a.pos,
            None => {
                return Intent { kind: IntentKind::Hold, at: Coord::new(0, 0) };
            },
        };
        let adjacent = self.grid.adjacent_walkable(from);
        proof {
            self.grid.lemma_adjacent_distinct(from, true);
            self.grid.lemma_adjacent_walkable_spec(from);
        }
        let count = adjacent.len() as i32;
        let pick = self.roll(0, count);
        if pick < count {
            let step = adjacent[pick as usize];
            proof {
                assert(taxi_spec(from, adjacent@[pick as int]) == 1);
            }
            return self.step_intent(from, step);
        }
        Intent { kind: IntentKind::Hold, at: from }
    }

    /// Whether the actor `a` is what `s` looks for.
    fn sought(s: Sought, a: &Actor) -> (b: bool)
        ensures
            b == sought_spec(s, *a),
    {
        match s {
            Sought::Mass => a.is_player_aligned(),
            Sought::Prey => is_militia_family(a.kind) && !is_caravan(a.kind),
        }
    }

    /// Whether the live actor `id` sees `x`, which is what `s` looks for:
    /// inside its awareness, and with no rock in between.
    pub closed spec fn sees(&self, id: ActorId, x: ActorId, s: Sought) -> bool {
        &&& self.live(id)
        &&& self.live(x)
        &&& x != id
        &&& sought_spec(s, self.actor(x))
        &&& taxi_spec(self.actor(x).pos, self.actor(id).pos) <= self.actor(id).awareness
        &&& self.grid.sight_spec(self.actor(id).pos, self.actor(x).pos)
    }

    /// Everything of the sort `s` this actor can actually see.
    pub fn seen(&self, id: ActorId, s: Sought) -> (r: Vec<ActorId>)
        requires
            self.inv(),
        ensures
            forall|k: int| 0 <= k < r@.len() ==> self.sees(id, #[trigger] r@[k], s),
            forall|x: ActorId| #[trigger] self.sees(id, x, s) ==> r@.contains(x),
    {
        let (pos, aware) = match self.actors.get(id) {
            Some(a) => (a.pos, a.awareness),
            None => {
                return Vec::new();
            },
        };
        let cells = self.grid.cells_in_diamond(pos, aware);
        let mut out: Vec<ActorId> = Vec::new();
        let mut k: usize = 0;
        while k < cells.len()
            invariant
                self.inv(),
                self.live(id),
                pos == self.actor(id).pos,
                aware == self.actor(id).awareness,
                k <= cells@.len(),
                forall|i: int| 0 <= i < cells@.len() ==> self.grid.spec_in_bounds(#[trigger] cells@[i]) && taxi_spec(cells@[i], pos) <= aware,
                forall|m: int| 0 <= m < out@.len() ==> self.sees(id, #[trigger] out@[m], s),
                forall|j: int|
                    0 <= j < k && (self.occupant(#[trigger] cells@[j]) matches Some(x) && self.sees(id, x, s)) ==> out@.contains(
                        self.occupant(cells@[j])->0,
                    ),
            decreases cells@.len() - k,
        {
            let c = cells[k];
            let ghost before = out@;
            proof {
                self.lemma_occupant_live(c);
            }
            if self.grid.line_of_sight(pos, c) {
                match self.actor_at(c) {
                    Some(x) => {
                        if x != id {
                            match self.actors.get(x) {
                                Some(a) => {
                                    if Self::sought(s, a) {
                                        out.push(x);
                                        proof {
                                            assert(out@[out@.len() - 1] == x);
                                        }
                                    }
                                },
                                None => {},
                            }
                        }
                    },
                    None => {},
                }
            }
            proof {
                assert forall|q: ActorId| before.contains(q) implies out@.contains(q) by {
                    let z = choose|z: int| 0 <= z < before.len() && before[z] == q;
                    assert(out@[z] == q);
                }
                assert forall|m: int| 0 <= m < out@.len() implies self.sees(id, #[trigger] out@[m], s) by {
                    if m < before.len() {
                        assert(out@[m] == before[m]);
                    }
                }
            }
            k = k + 1;
        }
        proof {
            assert forall|x: ActorId| #[trigger] self.sees(id, x, s) implies out@.contains(x) by {
                self.lemma_live_on_map(x);
                let p = self.actor(x).pos;
                assert(cells@.contains(p));
                let j = choose|j: int| 0 <= j < cells@.len() && cells@[j] == p;
                assert(self.occupant(cells@[j]) == Some(x));
            }
        }
        out
    }

    /// One step of a walk to `goal`, or a wander when there is no way there.
    pub fn walk_toward(&mut self, id: ActorId, goal: Coord) -> (i: Intent)
        requires
            old(self).inv(),
        ensures
            final(self).inv(),
            old(self).kept_setup(&*final(self)),
            old(self).chance_only(&*final(self)),
            !old(self).live(id) ==> i == hold_at(goal),
            old(self).live(id) ==> one_step(old(self).actor(id).pos, i),
    {
        let from = match self.actors.get(id) {
            Some(a) => a.pos,
            None => {
                return Intent { kind: IntentKind::Hold, at: goal };
            },
        };
        let targets: Vec<Coord> = vec![goal];
        let paths = self.shortest_paths_to(from, targets.as_slice(), Passable::Walkable);
        if paths.len() > 0 && paths[0].len() > 1 {
            let step = paths[0][1];
            proof {
                assert(self.route_ok(paths@[0]@, from, targets@, Passable::Walkable));
                let p = paths@[0]@;
                let j: int = 1;
                assert(taxi_spec(p[j - 1], p[j]) == 1);
            }
            return self.step_intent(from, step);
        }
        self.wander_intent(id)
    }

    /// One step along a shortest path to the nearest of `cells`. With no
    /// way there at all the human says so and stands still.
    pub fn approach(&mut self, id: ActorId, cells: &Vec<Coord>) -> (i: Intent)
        requires
            old(self).inv(),
            old(self).live(id),
        ensures
            final(self).inv(),
            old(self).kept_setup(&*final(self)),
            one_step(old(self).actor(id).pos, i),
            final(self).arena() == old(self).arena(),
            final(self).floor() == old(self).floor(),
            final(self).map() == old(self).map(),
            final(self).phase_spec() == old(self).phase_spec(),
            ({
                let pos = old(self).actor(id).pos;
                (!cells@.contains(pos) && old(self).cells() < i32::MAX && exists|q: Seq<Coord>, t: Coord|
                    cells@.contains(t) && #[trigger] old(self).trail(q, pos, t, Passable::Walkable)) ==> (i.kind
                    != IntentKind::Hold && exists|q: Seq<Coord>|
                    #[trigger] old(self).trail(q, pos, q[q.len() - 1], Passable::Walkable) && cells@.contains(q[q.len() - 1])
                        && q.len() >= 2 && q[1] == i.at && forall|q2: Seq<Coord>, t2: Coord|
                        cells@.contains(t2) && #[trigger] old(self).trail(q2, pos, t2, Passable::Walkable) ==> q.len() <= q2.len())
            }),
    {
        let (from, name) = match self.actors.get(id) {
            Some(a) => (a.pos, a.name),
            None => {
                return Intent { kind: IntentKind::Hold, at: Coord::new(0, 0) };
            },
        };
        let hold = Intent { kind: IntentKind::Hold, at: from };
        let paths = self.shortest_paths_to(from, cells.as_slice(), Passable::Walkable);
        let picked = if paths.len() > 2147483647usize {
            Some(0usize)
        } else {
            self.roll_index(paths.len())
        };
        let pick = match picked {
            Some(p) => p,
            None => {
                let line = join_text(&["The ", name, " contemplates the irrationality of its existence."]);
                self.say(line.as_str());
                self.effect_at(EffectKind::Refused, from);
                return hold;
            },
        };
        proof {
            if !cells@.contains(from) && old(self).cells() < i32::MAX && exists|q: Seq<Coord>, t: Coord|
                cells@.contains(t) && #[trigger] old(self).trail(q, from, t, Passable::Walkable) {
                let p = paths@[pick as int]@;
                assert(old(self).route_ok(p, from, cells@, Passable::Walkable));
                assert(p.len() != 1);
            }
        }
        if paths[pick].len() > 1 {
            let step = paths[pick][1];
            proof {
                assert(self.route_ok(paths@[pick as int]@, from, cells@, Passable::Walkable));
                let p = paths@[pick as int]@;
                let j: int = 1;
                assert(taxi_spec(p[j - 1], p[j]) == 1);
                if !cells@.contains(from) && old(self).cells() < i32::MAX && exists|q: Seq<Coord>, t: Coord|
                    cells@.contains(t) && #[trigger] old(self).trail(q, from, t, Passable::Walkable) {
                    assert(old(self).trail(p, from, p[p.len() - 1], Passable::Walkable));
                    assert(paths@[0]@.len() == p.len());
                    assert forall|q2: Seq<Coord>, t2: Coord|
                        cells@.contains(t2) && #[trigger] old(self).trail(q2, from, t2, Passable::Walkable) implies p.len() <= q2.len() by {
                        assert(paths@[0]@.len() <= q2.len());
                    }
                }
            }
            return self.step_intent(from, step);
        }
        hold
    }

    /// Whether `id` is one of the mass.
    fn in_mass(&self, id: ActorId) -> (b: bool)
        ensures
            b == self.mass_spec().contains(id),
    {
        let mut k: usize = 0;
        while k < self.player_mass.len()
            invariant
                k <= self.player_mass@.len(),
                forall|j: int| 0 <= j < k ==> self.player_mass@[j] != id,
            decreases self.player_mass@.len() - k,
        {
            if self.player_mass[k] == id {
                proof {
                    assert(self.player_mass@[k as int] == id);
                }
                return true;
            }
            k = k + 1;
        }
        false
    }

    /// A human's move: walk onto the cell, or hit whatever of yours stands
    /// in the way.
    pub fn attack_move_npc(&mut self, monster: ActorId, cell: Coord)
        requires
            old(self).inv(),
        ensures
            final(self).inv(),
            old(self).kept_setup(&*final(self)),
            old(self).live(monster) && old(self).map().spec_cell(cell).walkable ==> final(self).live(monster)
                && final(self).actor(monster).pos == cell,
            !(old(self).live(monster) && old(self).map().spec_cell(cell).walkable) && !(old(self).occupant(cell) matches Some(t)
                && old(self).mass_spec().contains(t)) ==> *final(self) == *old(self),
    {
        if self.set_actor_position(monster, cell) {
            proof {
                assert(self.arena()@[monster@ as int] is Some);
            }
            return ;
        }
        match self.actor_at(cell) {
            Some(target) => {
                if self.in_mass(target) {
                    self.attack(monster, target);
                }
            },
            None => {},
        }
    }

    /// A caravan steps through that gate beside it and is gone, cargo and
    /// all. Nothing happens unless `gate` is that gate beside it.
    pub fn depart(&mut self, id: ActorId, gate: Coord)
        requires
            old(self).inv(),
        ensures
            final(self).inv(),
            old(self).kept_setup(&*final(self)),
            final(self).live(id) ==> *final(self) == *old(self),
            old(self).phase_spec() == final(self).phase_spec(),
    {
        let (name, from) = match self.actors.get(id) {
            Some(a) => (a.name, a.pos),
            None => {
                return ;
            },
        };
        match self.gate_beside(from) {
            Some(g) => {
                if g != gate {
                    return ;
                }
            },
            None => {
                return ;
            },
        }
        self.effect(EffectKind::Depart, from, gate);
        let line = join_text(&["The ", name, " slips through the ", "gate with its cargo."]);
        self.say(line.as_str());
        let ghost b = self.actors@;
        self.remove_actor(id);
        proof {
            assert(b.update(id@ as int, None)[id@ as int] is None);
        }
        self.cue(Cue::Depart);
    }

    /// What a human may commit to when it is not fighting: a step to a
    /// neighbouring cell, standing still, or leaving through a gate.
    pub closed spec fn fair_intent(&self, id: ActorId, i: Intent) -> bool {
        ||| one_step(self.actor(id).pos, i)
        ||| (i.kind == IntentKind::Depart && self.gate_on(i.at))
    }

    /// Walk to a goal, or mill about when the duty could not name one.
    pub fn walk_or_wander(&mut self, id: ActorId, goal: Option<Coord>) -> (i: Intent)
        requires
            old(self).inv(),
        ensures
            final(self).inv(),
            old(self).kept_setup(&*final(self)),
            old(self).chance_only(&*final(self)),
            old(self).live(id) ==> one_step(old(self).actor(id).pos, i),
    {
        match goal {
            Some(g) => self.walk_toward(id, g),
            None => self.wander_intent(id),
        }
    }

    /// A garrison walks a beat between the doorway it came out of and the
    /// nearest chamber, turning round at either end.
    pub fn garrison_intent(&mut self, id: ActorId) -> (r: Option<Intent>)
        requires
            old(self).inv(),
        ensures
            final(self).inv(),
            old(self).kept_setup(&*final(self)),
            old(self).unmoved(&*final(self)),
            r is None <==> !old(self).live(id),
            r matches Some(i) ==> one_step(old(self).actor(id).pos, i),
            old(self).live(id) ==> final(self).live(id) && final(self).actor(id).orders.duty == old(self).actor(
                id,
            ).orders.duty,
    {
        let (orders, from) = match self.actors.get(id) {
            Some(a) => (a.orders, a.pos),
            None => {
                return None;
            },
        };
        let goal = match orders.goal {
            Some(g) => {
                if taxi_wide(g, from) > ARRIVED as i64 {
                    Some(g)
                } else if taxi_wide(orders.home, from) > ARRIVED as i64 {
                    Some(orders.home)
                } else {
                    self.nearest_junction(from)
                }
            },
            None => {
                if taxi_wide(orders.home, from) > ARRIVED as i64 {
                    Some(orders.home)
                } else {
                    self.nearest_junction(from)
                }
            },
        };
        let ghost o = *self;
        match goal {
            Some(g) => {
                self.set_goal(id, Some(g));
            },
            None => {},
        }
        let ghost m = *self;
        let i = self.walk_or_wander(id, goal);
        proof {
            assert(o.unmoved(&m));
            assert(m.unmoved(&*self));
            Sim::lemma_unmoved_trans(&o, &m, &*self);
            assert(m.actor(id).pos == o.actor(id).pos);
        }
        Some(i)
    }

    /// A caravan makes for the far gate it was given, and the turn it stands
    /// in that doorway it commits to leaving through it. A goal whose gate
    /// has fallen is replaced; with nowhere left to go it mills about.
    pub fn convoy_intent(&mut self, id: ActorId) -> (r: Option<Intent>)
        requires
            old(self).inv(),
        ensures
            final(self).inv(),
            old(self).kept_setup(&*final(self)),
            old(self).unmoved(&*final(self)),
            r is None <==> !old(self).live(id),
            r matches Some(i) ==> old(self).fair_intent(id, i),
    {
        let (from, standing) = match self.actors.get(id) {
            Some(a) => (a.pos, a.orders.goal),
            None => {
                return None;
            },
        };
        let ghost o = *self;
        let kept = match standing {
            Some(g) => match self.gate_beside(g) {
                Some(_) => Some(g),
                None => None,
            },
            None => None,
        };
        let goal = match kept {
            Some(g) => g,
            None => match self.assign_convoy_goal(id) {
                Some(g) => g,
                None => {
                    let i = self.wander_intent(id);
                    return Some(i);
                },
            },
        };
        let ghost m = *self;
        proof {
            assert(o.unmoved(&m));
            assert(m.actor(id).pos == from);
            assert(m.live(id));
        }
        if goal == from {
            match self.gate_beside(from) {
                Some(gate) => {
                    proof {
                        let n = self.map().adjacent_spec(from, false);
                        let k = choose|k: int|
                            0 <= k < n.len() && n[k] == gate && self.gate_on(gate) && forall|j: int|
                                0 <= j < k ==> !#[trigger] self.gate_on(n[j]);
                        assert(m.gate_on(gate));
                    }
                    return Some(Intent { kind: IntentKind::Depart, at: gate });
                },
                None => {},
            }
        }
        let i = self.walk_toward(id, goal);
        proof {
            Sim::lemma_unmoved_trans(&o, &m, &*self);
        }
        Some(i)
    }

    /// An escort closes on its caravan until it is beside the wagon, then
    /// mills about there. With the wagon gone it goes back to garrison duty.
    pub fn escort_intent(&mut self, id: ActorId, caravan: ActorId) -> (r: Option<Intent>)
        requires
            old(self).inv(),
        ensures
            final(self).inv(),
            old(self).kept_setup(&*final(self)),
            old(self).unmoved(&*final(self)),
            r is None <==> !old(self).live(id),
            r matches Some(i) ==> one_step(old(self).actor(id).pos, i),
            old(self).live(id) && !old(self).live(caravan) ==> final(self).actor(id).orders.duty == Duty::Garrison,
    {
        let from = match self.actors.get(id) {
            Some(a) => a.pos,
            None => {
                return None;
            },
        };
        let ghost o = *self;
        let wagon = match self.actors.get(caravan) {
            Some(a) => a.pos,
            None => {
                self.set_duty(id, Duty::Garrison);
                let ghost m = *self;
                let r = self.garrison_intent(id);
                proof {
                    Sim::lemma_unmoved_trans(&o, &m, &*self);
                }
                return r;
            },
        };
        if taxi_wide(wagon, from) <= ESCORT_RANGE as i64 {
            return Some(self.wander_intent(id));
        }
        Some(self.walk_toward(id, wagon))
    }

    /// A scout's next goal: its standing goal while that is still some way
    /// off and open, otherwise one of the deepest half of the chambers that
    /// is not where it stands, which becomes its goal.
    /// Every chamber's middle, keyed by how deep it lies.
    pub open spec fn keyed_junctions(&self) -> Seq<(i32, Coord)> {
        self.junctions_spec().map_values(|c: Coord| (self.depth_of(c), c))
    }

    /// `g` comes within the first half (at least one) of some ordering of
    /// the chambers from the deepest to the shallowest: it is one of the
    /// deepest half.
    pub open spec fn among_deepest(&self, g: Coord) -> bool {
        let n = self.junctions_spec().len();
        let keep = if n / 2 > 1 {
            n / 2
        } else {
            1
        };
        exists|r: Seq<(i32, Coord)>, q: int|
            #![trigger r.to_multiset(), r[q]]
            r.to_multiset() == self.keyed_junctions().to_multiset() && (forall|i: int, j: int|
                0 <= i <= j < r.len() ==> (#[trigger] r[i]).0 >= (#[trigger] r[j]).0) && 0 <= q < keep && q < r.len()
                && r[q].1 == g
    }

    pub fn patrol_goal(&mut self, id: ActorId) -> (r: Option<Coord>)
        requires
            old(self).inv(),
        ensures
            final(self).inv(),
            old(self).kept_setup(&*final(self)),
            old(self).unmoved(&*final(self)),
            !old(self).live(id) ==> r is None,
            r matches Some(g) ==> old(self).live(id) && taxi_spec(g, old(self).actor(id).pos) > ARRIVED
                && final(self).actor(id).orders.goal == Some(g),
            r matches Some(g) ==> old(self).actor(id).orders.goal == Some(g) || (old(self).junctions_spec().contains(g)
                && old(self).among_deepest(g)),
    {
        let (from, standing) = match self.actors.get(id) {
            Some(a) => (a.pos, a.orders.goal),
            None => {
                return None;
            },
        };
        match standing {
            Some(g) => {
                if taxi_wide(g, from) > ARRIVED as i64 && !self.is_wall(g) {
                    return Some(g);
                }
            },
            None => {},
        }
        let ghost o = *self;
        let mut keyed: Vec<(i32, Coord)> = Vec::new();
        let mut k: usize = 0;
        while k < self.junctions.len()
            invariant
                old(self).kept_setup(&*self),
                self.inv(),
                *self == o,
                k <= self.junctions@.len(),
                keyed@.len() == k,
                keyed@ == o.keyed_junctions().take(k as int),
            decreases self.junctions@.len() - k,
        {
            let c = self.junctions[k];
            let ghost kb = keyed@;
            keyed.push((self.depth_at(c), c));
            proof {
                assert(keyed@ =~= o.keyed_junctions().take(k + 1));
            }
            k = k + 1;
        }
        proof {
            assert(keyed@ =~= o.keyed_junctions());
        }
        let ranked = sort_desc(&keyed);
        proof {
            ranked@.to_multiset_ensures();
            keyed@.to_multiset_ensures();
            assert(ranked@.len() == keyed@.len()) by {
                assert(ranked@.to_multiset().len() == keyed@.to_multiset().len());
            }
        }
        let half = ranked.len() / 2;
        let keep = if half > 1 { half } else { 1 };
        let mut deep: Vec<Coord> = Vec::new();
        let mut q: usize = 0;
        while q < ranked.len() && q < keep
            invariant
                old(self).kept_setup(&*self),
                q <= ranked@.len(),
                deep@.len() <= q,
                forall|m: int| 0 <= m < deep@.len() ==> taxi_spec(#[trigger] deep@[m], from) > ARRIVED,
                forall|m: int|
                    #![trigger deep@[m]]
                    0 <= m < deep@.len() ==> exists|p: int| 0 <= p < keep && p < ranked@.len() && #[trigger] ranked@[p].1 == deep@[m],
            decreases ranked@.len() - q,
        {
            let c = ranked[q].1;
            if taxi_wide(c, from) > ARRIVED as i64 {
                let ghost db = deep@;
                deep.push(c);
                proof {
                    assert forall|m: int| #![trigger deep@[m]] 0 <= m < deep@.len() implies exists|p: int|
                        0 <= p < keep && p < ranked@.len() && #[trigger] ranked@[p].1 == deep@[m] by {
                        if m < db.len() {
                            assert(deep@[m] == db[m]);
                        } else {
                            assert(ranked@[q as int].1 == deep@[m]);
                        }
                    }
                }
            }
            q = q + 1;
        }
        if deep.len() > 2147483647usize {
            return None;
        }
        let goal = match self.pick(deep.as_slice()) {
            Some(g) => g,
            None => {
                return None;
            },
        };
        proof {
            let z = choose|z: int| 0 <= z < deep@.len() && deep@[z] == goal;
            let p = choose|p: int| 0 <= p < keep && p < ranked@.len() && #[trigger] ranked@[p].1 == deep@[z];
            assert(ranked@.len() == o.junctions_spec().len());
            assert(ranked@.to_multiset() == o.keyed_junctions().to_multiset());
            assert(o.among_deepest(goal));
            assert(ranked@.to_multiset().contains(ranked@[p]));
            assert(keyed@.contains(ranked@[p]));
            let j = choose|j: int| 0 <= j < keyed@.len() && keyed@[j] == ranked@[p];
            assert(o.junctions_spec()[j] == goal);
        }
        let ghost m = *self;
        self.set_goal(id, Some(goal));
        proof {
            Sim::lemma_unmoved_trans(&o, &m, &*self);
        }
        Some(goal)
    }

    /// The duty roster: what a human does with a turn in which it sees
    /// nothing of yours.
    pub fn idle_intent(&mut self, id: ActorId) -> (r: Option<Intent>)
        requires
            old(self).inv(),
        ensures
            final(self).inv(),
            old(self).kept_setup(&*final(self)),
            old(self).unmoved(&*final(self)),
            r is None <==> !old(self).live(id),
            r matches Some(i) ==> old(self).fair_intent(id, i),
    {
        let duty = match self.actors.get(id) {
            Some(a) => a.orders.duty,
            None => {
                return None;
            },
        };
        let ghost o = *self;
        match duty {
            Duty::Convoy => self.convoy_intent(id),
            Duty::Escort(caravan) => self.escort_intent(id, caravan),
            Duty::Garrison => self.garrison_intent(id),
            Duty::Patrol => {
                let goal = self.patrol_goal(id);
                let ghost m = *self;
                let i = self.walk_or_wander(id, goal);
                proof {
                    Sim::lemma_unmoved_trans(&o, &m, &*self);
                }
                Some(i)
            },
            Duty::Investigate => {
                let heard = self.rumor_goal(id);
                let goal = match heard {
                    Some(g) => Some(g),
                    None => self.patrol_goal(id),
                };
                let ghost m = *self;
                let i = self.walk_or_wander(id, goal);
                proof {
                    Sim::lemma_unmoved_trans(&o, &m, &*self);
                }
                Some(i)
            },
            Duty::Unassigned => Some(self.wander_intent(id)),
        }
    }

    /// Replace a ranged human's aim.
    fn set_ranged(&mut self, id: ActorId, st: actors::RangedState)
        requires
            old(self).inv(),
        ensures
            final(self).inv(),
            old(self).kept_setup(&*final(self)),
            *final(self) == (Sim { actors: final(self).actors, ..*old(self) }),
            same_bodies(old(self).arena()@, final(self).arena()@),
            old(self).live(id) && old(self).actor(id).extra is Ranged ==> final(self).actor(id).extra
                == actors::Extra::Ranged(st),
            forall|x: ActorId| old(self).live(x) ==> final(self).live(x),
    {
        let ghost b = self.actors@;
        match self.actors.get_mut(id) {
            Some(a) => match &mut a.extra {
                actors::Extra::Ranged(r) => {
                    *r = st;
                },
                _ => {},
            },
            None => {},
        }
        proof {
            assert(same_bodies(b, self.actors@));
            lemma_occupancy_same_bodies(self.grid, b, self.actors@, self.actor_at@, self.items@, self.item_at@);
        }
    }

    /// Whether `c` is one of `cells`.
    fn holds_coord(cells: &Vec<Coord>, c: Coord) -> (b: bool)
        ensures
            b == cells@.contains(c),
    {
        let mut k: usize = 0;
        while k < cells.len()
            invariant
                k <= cells@.len(),
                forall|j: int| 0 <= j < k ==> cells@[j] != c,
            decreases cells@.len() - k,
        {
            if cells[k] == c {
                proof {
                    assert(cells@[k as int] == c);
                }
                return true;
            }
            k = k + 1;
        }
        false
    }

    /// One turn of the countdown a painted line runs on; the last of them
    /// is the shot.
    fn discharge(&mut self, id: ActorId)
        requires
            old(self).inv(),
        ensures
            final(self).inv(),
            old(self).kept_setup(&*final(self)),
            !(old(self).live(id) && old(self).actor(id).extra is Ranged) ==> *final(self) == *old(self),
            old(self).live(id) && (old(self).actor(id).extra matches actors::Extra::Ranged(r) && r.firing > 0)
                ==> final(self).actor(id).extra == actors::Extra::Ranged(
                actors::RangedState { firing: (old(self).actor(id).extra->Ranged_0.firing - 1) as i32, ..old(self).actor(id).extra->Ranged_0 },
            ) && old(self).unmoved(&*final(self)),
    {
        let r = match self.actors.get(id) {
            Some(a) => match a.extra {
                actors::Extra::Ranged(r) => r,
                _ => {
                    return ;
                },
            },
            None => {
                return ;
            },
        };
        if r.firing <= 0 {
            self.fire(id);
        } else {
            self.set_ranged(id, actors::RangedState { firing: r.firing - 1, ..r });
        }
    }

    /// Whichever of `cells` a ranged human has in line: the end of one of
    /// the shortest walks to them that lies on its row or column and is no
    /// more steps away than its range. Walks are tried in a random order.
    fn line_of_fire(&mut self, id: ActorId, cells: &Vec<Coord>) -> (r: Option<Coord>)
        requires
            old(self).inv(),
        ensures
            final(self).inv(),
            old(self).kept_setup(&*final(self)),
            old(self).chance_only(&*final(self)),
            r matches Some(t) ==> old(self).live(id) && cells@.contains(t) && (old(self).actor(id).extra matches actors::Extra::Ranged(st)
                && (t.x == old(self).actor(id).pos.x || t.y == old(self).actor(id).pos.y)),
    {
        let (from, range) = match self.actors.get(id) {
            Some(a) => match a.extra {
                actors::Extra::Ranged(st) => (a.pos, st.range),
                _ => {
                    return None;
                },
            },
            None => {
                return None;
            },
        };
        let ghost o = *self;
        let mut paths = self.shortest_paths_to(from, cells.as_slice(), Passable::Walkable);
        while paths.len() > 0
            invariant
                old(self).kept_setup(&*self),
                self.inv(),
                o == *old(self),
                o.chance_only(&*self),
                o.live(id),
                o.actor(id).pos == from,
                o.actor(id).extra matches actors::Extra::Ranged(st) && st.range == range,
                forall|k: int| 0 <= k < paths@.len() ==> self.route_ok((#[trigger] paths@[k])@, from, cells@, Passable::Walkable),
            decreases paths@.len(),
        {
            if paths.len() > 2147483647usize {
                return None;
            }
            let pick = match self.roll_index(paths.len()) {
                Some(p) => p,
                None => {
                    return None;
                },
            };
            let ghost pb = paths@;
            let path = paths.remove(pick);
            proof {
                assert(self.route_ok(pb[pick as int]@, from, cells@, Passable::Walkable));
                assert forall|k: int| 0 <= k < paths@.len() implies self.route_ok((#[trigger] paths@[k])@, from, cells@, Passable::Walkable) by {
                    let ok = if k < pick { k } else { k + 1 };
                    assert(paths@[k] == pb[ok]);
                }
            }
            if path.len() > 0 {
                let target = path[path.len() - 1];
                let steps = path.len() - 1;
                if (steps as u64) <= (if range < 0 { 0u64 } else { range as u64 }) && range >= 0 && (target.x == from.x
                    || target.y == from.y) {
                    return Some(target);
                }
            }
        }
        None
    }

    /// Paint reticles down the line toward `target` until rock stops them or
    /// the range runs out, and start the countdown to the shot. Bodies do not
    /// stop the line.
    fn aim(&mut self, id: ActorId, target: Coord)
        requires
            old(self).inv(),
        ensures
            final(self).inv(),
            old(self).kept_setup(&*final(self)),
            old(self).unmoved(&*final(self)),
            old(self).reticles@.len() <= final(self).reticles@.len(),
            forall|k: int|
                old(self).reticles@.len() <= k < final(self).reticles@.len() ==> (#[trigger] final(self).reticles@[k]).owner
                    == id && final(self).map().spec_in_bounds(final(self).reticles@[k].pos),
            !(old(self).live(id) && old(self).actor(id).extra is Ranged) ==> *final(self) == *old(self),
    {
        let (from, st) = match self.actors.get(id) {
            Some(a) => match a.extra {
                actors::Extra::Ranged(st) => (a.pos, st),
                _ => {
                    return ;
                },
            },
            None => {
                return ;
            },
        };
        proof {
            self.lemma_live_on_map(id);
        }
        let ghost o = *self;
        let (dx, dy): (i32, i32) = if target.x > from.x {
            (1, 0)
        } else if target.x < from.x {
            (-1, 0)
        } else if target.y > from.y {
            (0, 1)
        } else {
            (0, -1)
        };
        let direction = Coord::new(dx, dy);
        let mut bullet = Coord::new(from.x + dx, from.y + dy);
        let mut travelled: i32 = 0;
        let mut last = from;
        while self.grid.in_bounds(bullet) && !self.is_wall(bullet) && travelled < st.range
            invariant
                old(self).kept_setup(&*self),
                self.inv(),
                o.unmoved(&*self),
                *self == (Sim { reticles: self.reticles, ..o }),
                o.reticles@.len() <= self.reticles@.len(),
                forall|k: int|
                    o.reticles@.len() <= k < self.reticles@.len() ==> (#[trigger] self.reticles@[k]).owner == id
                        && self.map().spec_in_bounds(self.reticles@[k].pos),
                -1 <= dx <= 1,
                -1 <= dy <= 1,
                0 <= travelled,
                -1 <= bullet.x <= self.map().spec_width(),
                -1 <= bullet.y <= self.map().spec_height(),
            decreases st.range - travelled,
        {
            travelled = travelled + 1;
            self.reticles.push(Reticle { pos: bullet, owner: id });
            last = bullet;
            proof {
                self.grid.lemma_wf();
            }
            bullet = Coord::new(bullet.x + dx, bullet.y + dy);
        }
        let ghost m = *self;
        let firing = if st.firing > i32::MIN { st.firing - 1 } else { st.firing };
        self.set_ranged(id, actors::RangedState { direction, firing, ..st });
        self.effect(EffectKind::Aim, from, last);
        self.cue(Cue::Aim);
    }

    /// Fire down the painted line. Everything of yours under it is unslimed
    /// rather than destroyed, a nucleus retreating first so that what it
    /// hid behind takes the shot; humans on the line are killed too. The
    /// line is then wiped.
    fn fire(&mut self, id: ActorId)
        requires
            old(self).inv(),
        ensures
            final(self).inv(),
            old(self).kept_setup(&*final(self)),
            forall|k: int| 0 <= k < final(self).reticles@.len() ==> (#[trigger] final(self).reticles@[k]).owner != id,
    {
        let (name, from, st) = match self.actors.get(id) {
            Some(a) => match a.extra {
                actors::Extra::Ranged(st) => (a.name, a.pos, st),
                _ => (a.name, a.pos, actors::RangedState { firing: 0, firing_time: 0, direction: Coord::new(0, 0), range: 0 }),
            },
            None => ("", Coord::new(0, 0), actors::RangedState { firing: 0, firing_time: 0, direction: Coord::new(0, 0), range: 0 }),
        };
        self.set_ranged(id, actors::RangedState { firing: st.firing_time, ..st });
        let mut line: Vec<Coord> = Vec::new();
        let mut k: usize = 0;
        while k < self.reticles.len()
            invariant
                old(self).kept_setup(&*self),
                k <= self.reticles@.len(),
                line@.len() <= k,
            decreases self.reticles@.len() - k,
        {
            if self.reticles[k].owner == id {
                line.push(self.reticles[k].pos);
            }
            k = k + 1;
        }
        let end = if line.len() > 0 { line[line.len() - 1] } else { from };
        self.effect(EffectKind::Shot, from, end);
        let mut hits: u64 = 0;
        let mut j: usize = 0;
        while j < line.len()
            invariant
                old(self).kept_setup(&*self),
                self.inv(),
                j <= line@.len(),
                hits <= j,
            decreases line@.len() - j,
        {
            let cell = line[j];
            j = j + 1;
            let hit = match self.actor_at(cell) {
                Some(h) => h,
                None => {
                    continue;
                },
            };
            let kind = match self.actors.get(hit) {
                Some(a) => a.kind,
                None => {
                    continue;
                },
            };
            hits = hits + 1;
            if is_nucleus_family(kind) {
                let victim = match self.retreat(hit) {
                    Some(v) => v,
                    None => hit,
                };
                self.unslime_organelle(victim);
            } else if is_organelle(kind) {
                self.unslime_organelle(hit);
                self.cue(Cue::OrganelleLost);
            } else if is_npc(kind) {
                self.kill_npc(hit);
            }
        }
        if hits > 0 {
            let count = decimal_text(hits);
            let line = join_text(&["The ", name, " hit ", count.as_str(), " mass."]);
            self.say(line.as_str());
        }
        let mut kept: Vec<Reticle> = Vec::new();
        let mut q: usize = 0;
        while q < self.reticles.len()
            invariant
                old(self).kept_setup(&*self),
                q <= self.reticles@.len(),
                forall|m: int| 0 <= m < kept@.len() ==> (#[trigger] kept@[m]).owner != id,
            decreases self.reticles@.len() - q,
        {
            let r = self.reticles[q];
            if r.owner != id {
                kept.push(r);
            }
            q = q + 1;
        }
        self.reticles = kept;
        self.cue(Cue::Shot);
    }

    /// The sum of the distances from `c` to each of `sources`: how far from
    /// them all a cell is.
    pub open spec fn spread(c: Coord, sources: Seq<Coord>) -> int
        decreases sources.len(),
    {
        if sources.len() == 0 {
            0
        } else {
            Sim::spread(c, sources.drop_last()) + taxi_spec(c, sources.last())
        }
    }

    /// The executable form of [`Sim::spread`].
    fn spread_of(c: Coord, sources: &Vec<Coord>) -> (r: i128)
        ensures
            r == Sim::spread(c, sources@),
    {
        let mut total: i128 = 0;
        let mut k: usize = 0;
        while k < sources.len()
            invariant
                k <= sources@.len(),
                total == Sim::spread(c, sources@.take(k as int)),
                0 <= total <= k * 0x2_0000_0000,
            decreases sources@.len() - k,
        {
            proof {
                assert(sources@.take(k + 1).drop_last() =~= sources@.take(k as int));
            }
            total = total + taxi_wide(c, sources[k]) as i128;
            k = k + 1;
        }
        proof {
            assert(sources@.take(k as int) =~= sources@);
        }
        total
    }

    /// One greedy step away from everything in `sources`, scored by the sum
    /// of distances to them, or standing still. Candidates are kept on `>=`
    /// and never dropped when a better one turns up, so fleeing looks
    /// panicked rather than optimal. With `pass_through`, a cell someone
    /// else stands on (not a gate and not a source) may be taken too.
    pub fn immediate_uphill_step(&mut self, id: ActorId, sources: &Vec<Coord>, pass_through: bool) -> (r: Coord)
        requires
            old(self).inv(),
        ensures
            final(self).inv(),
            old(self).kept_setup(&*final(self)),
            old(self).chance_only(&*final(self)),
            !old(self).live(id) ==> r == (Coord { x: 0, y: 0 }),
            old(self).live(id) ==> r == old(self).actor(id).pos || taxi_spec(old(self).actor(id).pos, r) == 1,
    {
        let from = match self.actors.get(id) {
            Some(a) => a.pos,
            None => {
                return Coord::new(0, 0);
            },
        };
        let mut best_free = Self::spread_of(from, sources);
        let mut free: Vec<Coord> = Vec::new();
        free.push(from);
        let mut best_sacrifice: i128 = -1;
        let mut sacrifices: Vec<Coord> = Vec::new();
        let neighbours = self.grid.adjacent(from);
        proof {
            self.grid.lemma_adjacent_spec(from);
        }
        let mut k: usize = 0;
        while k < neighbours.len()
            invariant
                old(self).kept_setup(&*self),
                self.inv(),
                k <= neighbours@.len(),
                neighbours@ == self.grid.adjacent_spec(from, false),
                forall|q: int| 0 <= q < neighbours@.len() ==> taxi_spec(from, #[trigger] neighbours@[q]) == 1,
                forall|m: int| 0 <= m < free@.len() ==> #[trigger] free@[m] == from || taxi_spec(from, free@[m]) == 1,
                forall|m: int| 0 <= m < sacrifices@.len() ==> taxi_spec(from, #[trigger] sacrifices@[m]) == 1,
                free@.len() <= k + 1,
                sacrifices@.len() <= k,
            decreases neighbours@.len() - k,
        {
            let cell = neighbours[k];
            let value = Self::spread_of(cell, sources);
            if self.grid.walkable(cell) {
                if value >= best_free {
                    best_free = value;
                    free.push(cell);
                }
            } else if pass_through {
                match self.actor_at(cell) {
                    Some(other) => {
                        let gate = match self.actors.get(other) {
                            Some(a) => is_city(a.kind),
                            None => false,
                        };
                        if !Self::holds_coord(sources, cell) && !gate && value >= best_sacrifice {
                            best_sacrifice = value;
                            sacrifices.push(cell);
                        }
                    },
                    None => {},
                }
            }
            k = k + 1;
        }
        if sacrifices.len() > 0 {
            let take = if best_sacrifice > best_free {
                true
            } else if best_sacrifice == best_free {
                self.roll(0, 1) == 0
            } else {
                false
            };
            if take {
                return match self.pick(sacrifices.as_slice()) {
                    Some(c) => c,
                    None => from,
                };
            }
        }
        match self.pick(free.as_slice()) {
            Some(c) => c,
            None => from,
        }
    }

    /// Whether the human `id` sees something of yours standing on `t`.
    pub open spec fn sighted(&self, id: ActorId, t: Coord) -> bool {
        exists|x: ActorId| #[trigger] self.sees(id, x, Sought::Mass) && self.actor(x).pos == t
    }

    /// What a human decides to do next: a gun mid-cycle finishes its shot,
    /// anybody who can see something of yours answers that (reporting where
    /// it saw it), and everybody else does their job.
    pub fn choose_intent(&mut self, id: ActorId) -> (r: Option<Intent>)
        requires
            old(self).inv(),
        ensures
            final(self).inv(),
            old(self).kept_setup(&*final(self)),
            old(self).unmoved(&*final(self)),
            r is None <==> !old(self).live(id),
            r matches Some(i) ==> old(self).fair_intent(id, i) || i.kind == IntentKind::Aim || i.kind
                == IntentKind::Fire,
            old(self).live(id) && (old(self).actor(id).extra matches actors::Extra::Ranged(st) && st.firing
                < st.firing_time) ==> (r matches Some(i) && i.kind == IntentKind::Fire),
            ({
                let pos = old(self).actor(id).pos;
                (old(self).live(id) && !(old(self).actor(id).extra is Ranged) && !is_caravan(old(self).actor(id).kind)
                    && !is_hunter_family(old(self).actor(id).kind) && !old(self).sighted(id, pos) && old(self).cells()
                    < i32::MAX && exists|q: Seq<Coord>, t: Coord|
                    old(self).sighted(id, t) && #[trigger] old(self).trail(q, pos, t, Passable::Walkable)) ==> (r matches Some(i)
                    && i.kind != IntentKind::Hold && exists|q: Seq<Coord>|
                    #[trigger] old(self).trail(q, pos, q[q.len() - 1], Passable::Walkable) && old(self).sighted(id, q[q.len() - 1])
                        && q.len() >= 2 && q[1] == i.at && forall|q2: Seq<Coord>, t2: Coord|
                        old(self).sighted(id, t2) && #[trigger] old(self).trail(q2, pos, t2, Passable::Walkable) ==> q.len()
                            <= q2.len())
            }),
    {
        let (kind, from, ranged) = match self.actors.get(id) {
            Some(a) => (a.kind, a.pos, match a.extra {
                actors::Extra::Ranged(st) => Some(st),
                _ => None,
            }),
            None => {
                return None;
            },
        };
        match ranged {
            Some(st) => {
                if st.firing < st.firing_time {
                    let mut end = from;
                    let mut k: usize = 0;
                    while k < self.reticles.len()
                        invariant
                            old(self).kept_setup(&*self),
                            k <= self.reticles@.len(),
                        decreases self.reticles@.len() - k,
                    {
                        if self.reticles[k].owner == id {
                            end = self.reticles[k].pos;
                        }
                        k = k + 1;
                    }
                    return Some(Intent { kind: IntentKind::Fire, at: end });
                }
            },
            None => {},
        }
        let ghost o = *self;
        let targets = self.seen(id, Sought::Mass);
        if targets.len() == 0 {
            return self.idle_intent(id);
        }
        let mut cells: Vec<Coord> = Vec::new();
        let mut nearest = from;
        let mut best: i64 = -1;
        let mut k: usize = 0;
        while k < targets.len()
            invariant
                old(self).kept_setup(&*self),
                self.inv(),
                *self == o,
                k <= targets@.len(),
                forall|j: int| 0 <= j < cells@.len() ==> o.sighted(id, #[trigger] cells@[j]),
                forall|m: int| 0 <= m < k ==> cells@.contains(o.actor(#[trigger] targets@[m]).pos),
                forall|m: int| 0 <= m < targets@.len() ==> o.sees(id, #[trigger] targets@[m], Sought::Mass),
            decreases targets@.len() - k,
        {
            let ghost cb = cells@;
            proof {
                assert(o.sees(id, targets@[k as int], Sought::Mass));
            }
            match self.actors.get(targets[k]) {
                Some(a) => {
                    cells.push(a.pos);
                    proof {
                        assert(o.sighted(id, a.pos));
                        assert forall|m: int| 0 <= m < k + 1 implies cells@.contains(o.actor(#[trigger] targets@[m]).pos) by {
                            if m < k {
                                let jj = choose|jj: int| 0 <= jj < cb.len() && cb[jj] == o.actor(targets@[m]).pos;
                                assert(cells@[jj] == cb[jj]);
                            } else {
                                assert(cells@[cells@.len() - 1] == a.pos);
                            }
                        }
                    }
                    let d = taxi_wide(a.pos, from);
                    if best < 0 || d < best {
                        best = d;
                        nearest = a.pos;
                    }
                },
                None => {},
            }
            k = k + 1;
        }
        if cells.len() > 0 {
            self.raise_rumor(nearest);
            proof {
                o.lemma_rumors_unmoved(&*self);
            }
        }
        let ghost m = *self;
        if is_caravan(kind) {
            let step = self.immediate_uphill_step(id, &cells, false);
            let i = self.step_intent(from, step);
            proof {
                Sim::lemma_unmoved_trans(&o, &m, &*self);
            }
            return Some(i);
        }
        if is_hunter_family(kind) {
            match self.line_of_fire(id, &cells) {
                Some(t) => {
                    proof {
                        Sim::lemma_unmoved_trans(&o, &m, &*self);
                    }
                    return Some(Intent { kind: IntentKind::Aim, at: t });
                },
                None => {},
            }
        }
        let ghost n = *self;
        proof {
            Sim::lemma_unmoved_trans(&o, &m, &n);
            Sim::lemma_unmoved_walks(&o, &n);
            assert forall|t: Coord| cells@.contains(t) <==> o.sighted(id, t) by {
                if o.sighted(id, t) {
                    let x = choose|x: ActorId| #[trigger] o.sees(id, x, Sought::Mass) && o.actor(x).pos == t;
                    assert(targets@.contains(x));
                    let mm = choose|mm: int| 0 <= mm < targets@.len() && targets@[mm] == x;
                    assert(cells@.contains(o.actor(targets@[mm]).pos));
                }
                if cells@.contains(t) {
                    let jj = choose|jj: int| 0 <= jj < cells@.len() && cells@[jj] == t;
                    assert(o.sighted(id, cells@[jj]));
                }
            }
        }
        let i = self.approach(id, &cells);
        proof {
            Sim::lemma_unmoved_trans(&o, &n, &*self);
            let pos = o.actor(id).pos;
            if o.live(id) && !is_caravan(kind) && !is_hunter_family(kind) && !o.sighted(id, pos) && o.cells() < i32::MAX && exists|q: Seq<Coord>, t: Coord|
                o.sighted(id, t) && #[trigger] o.trail(q, pos, t, Passable::Walkable) {
                let (q0, t0) = choose|q: Seq<Coord>, t: Coord| o.sighted(id, t) && #[trigger] o.trail(q, pos, t, Passable::Walkable);
                assert(cells@.contains(t0) && n.trail(q0, pos, t0, Passable::Walkable));
                assert(n.actor(id).pos == pos);
                let q = choose|q: Seq<Coord>|
                    #[trigger] n.trail(q, pos, q[q.len() - 1], Passable::Walkable) && cells@.contains(q[q.len() - 1]) && q.len() >= 2
                        && q[1] == i.at && forall|q2: Seq<Coord>, t2: Coord|
                        cells@.contains(t2) && #[trigger] n.trail(q2, pos, t2, Passable::Walkable) ==> q.len() <= q2.len();
                assert(o.trail(q, pos, q[q.len() - 1], Passable::Walkable));
                assert forall|q2: Seq<Coord>, t2: Coord|
                    o.sighted(id, t2) && #[trigger] o.trail(q2, pos, t2, Passable::Walkable) implies q.len() <= q2.len() by {
                    assert(n.trail(q2, pos, t2, Passable::Walkable));
                }
            }
        }
        Some(i)
    }

    /// Carry out whatever this human committed to last turn, exactly as
    /// committed: a blow at a cell lands on that cell whatever stands there
    /// now. The commitment is used up.
    pub fn carry_out(&mut self, id: ActorId)
        requires
            old(self).inv(),
        ensures
            final(self).inv(),
            old(self).kept_setup(&*final(self)),
            !old(self).live(id) || old(self).actor(id).intent is None ==> *final(self) == *old(self),
            old(self).live(id) && (old(self).actor(id).intent matches Some(i) && i.kind == IntentKind::Hold)
                ==> final(self).live(id) && final(self).actor(id).intent is None && old(self).unmoved(&*final(self)),
            old(self).live(id) && (old(self).actor(id).intent matches Some(i) && (i.kind == IntentKind::Step || i.kind
                == IntentKind::Strike) && old(self).map().spec_cell(i.at).walkable) ==> (final(self).live(id)
                && final(self).actor(id).pos == old(self).actor(id).intent->0.at),
    {
        let intent = match self.actors.get(id) {
            Some(a) => match a.intent {
                Some(i) => i,
                None => {
                    return ;
                },
            },
            None => {
                return ;
            },
        };
        let ghost o = *self;
        self.set_intent(id, None);
        proof {
            assert(self.map() == o.map());
            assert(self.live(id));
        }
        match intent.kind {
            IntentKind::Step => self.attack_move_npc(id, intent.at),
            IntentKind::Strike => self.attack_move_npc(id, intent.at),
            IntentKind::Aim => self.aim(id, intent.at),
            IntentKind::Fire => self.discharge(id),
            IntentKind::Depart => self.depart(id, intent.at),
            IntentKind::Hold => {
                proof {
                    assert(same_bodies(old(self).actors@, self.actors@));
                }
            },
        }
    }

    /// Decide what this human will do next, and commit to it.
    pub fn form_intent(&mut self, id: ActorId)
        requires
            old(self).inv(),
        ensures
            final(self).inv(),
            old(self).kept_setup(&*final(self)),
            old(self).unmoved(&*final(self)),
            old(self).live(id) ==> final(self).live(id) && final(self).actor(id).intent is Some,
    {
        let ghost o = *self;
        let intent = self.choose_intent(id);
        let ghost m = *self;
        self.set_intent(id, intent);
        proof {
            assert(m.unmoved(&*self));
            Sim::lemma_unmoved_trans(&o, &m, &*self);
        }
    }

    /// The two halves of a human's turn: do what it said it would, then, if
    /// it is still there, say what it will do next. A human that is still
    /// there afterwards is always committed to something.
    pub fn take_turn(&mut self, id: ActorId)
        requires
            old(self).inv(),
        ensures
            final(self).inv(),
            old(self).kept_setup(&*final(self)),
            !old(self).live(id) ==> *final(self) == *old(self),
            final(self).live(id) ==> final(self).actor(id).intent is Some,
            old(self).live(id) && (old(self).actor(id).intent matches Some(i) && (i.kind == IntentKind::Step || i.kind
                == IntentKind::Strike) && old(self).map().spec_cell(i.at).walkable) ==> (final(self).live(id)
                && final(self).actor(id).pos == old(self).actor(id).intent->0.at),
    {
        match self.actors.get(id) {
            Some(_) => {},
            None => {
                return ;
            },
        }
        self.carry_out(id);
        match self.actors.get(id) {
            Some(_) => {
                let ghost before = *self;
                self.form_intent(id);
                proof {
                    Sim::lemma_unmoved_walks(&before, &*self);
                }
            },
            None => {},
        }
    }

    /// A human's turn: captured instead if it has just been sealed in,
    /// otherwise [`Sim::take_turn`].
    pub fn human_act(&mut self, id: ActorId)
        requires
            old(self).inv(),
        ensures
            final(self).inv(),
            old(self).kept_setup(&*final(self)),
            !old(self).live(id) ==> *final(self) == *old(self),
            old(self).live(id) && (old(self).actor(id).intent matches Some(i) && (i.kind == IntentKind::Step || i.kind
                == IntentKind::Strike) && old(self).map().spec_in_bounds(i.at) && taxi_spec(i.at, old(self).actor(id).pos)
                == 1 && old(self).map().spec_cell(i.at).walkable) ==> (final(self).live(id) && final(self).actor(id).pos
                == old(self).actor(id).intent->0.at),
            old(self).live(id) && (exists|d: Coord|
                old(self).map().spec_in_bounds(d) && #[trigger] taxi_spec(d, old(self).actor(id).pos) == 1 && old(
                    self,
                ).map().spec_cell(d).walkable) ==> (final(self).live(id) ==> final(self).actor(id).intent is Some),
    {
        let ghost o = *self;
        if self.engulf(id) {
            proof {
                let g = choose|g: Seq<ActorId>|
                    g.len() > 0 && g[0] == id && forall|i: int| 0 <= i < g.len() ==> #[trigger] o.shut_in(g[i], g);
                assert(o.shut_in(g[0], g));
                if o.actor(id).intent is Some {
                    let at = o.actor(id).intent->0.at;
                    if o.map().spec_in_bounds(at) && taxi_spec(at, o.actor(id).pos) == 1 {
                        assert(o.holds_in(at, g));
                    }
                }
                if exists|d: Coord|
                    o.map().spec_in_bounds(d) && #[trigger] taxi_spec(d, o.actor(id).pos) == 1 && o.map().spec_cell(d).walkable {
                    let d = choose|d: Coord|
                        o.map().spec_in_bounds(d) && #[trigger] taxi_spec(d, o.actor(id).pos) == 1 && o.map().spec_cell(d).walkable;
                    assert(o.holds_in(d, g));
                }
            }
            return ;
        }
        self.take_turn(id);
    }

    /// That gate `id`'s state, if `id` is a live gate.
    pub open spec fn gate_state(&self, id: ActorId) -> Option<actors::CityState> {
        if self.live(id) {
            match self.actor(id).extra {
                actors::Extra::City(c) => Some(c),
                _ => None,
            }
        } else {
            None
        }
    }

    /// Count a gate's wave timer down by one. Returns the count left and the
    /// gate's level, or nothing when `id` is no live gate.
    fn city_tick(&mut self, id: ActorId) -> (r: Option<(i32, i32)>)
        requires
            old(self).inv(),
        ensures
            final(self).inv(),
            old(self).kept_setup(&*final(self)),
            *final(self) == (Sim { actors: final(self).actors, ..*old(self) }),
            same_bodies(old(self).arena()@, final(self).arena()@),
            old(self).gate_state(id) is None ==> r is None && final(self).arena()@ == old(self).arena()@,
            old(self).gate_state(id) matches Some(c) ==> c.turns_to_next_wave > i32::MIN ==> (r == Some(
                ((c.turns_to_next_wave - 1) as i32, c.level),
            ) && final(self).gate_state(id) == Some(
                actors::CityState { turns_to_next_wave: (c.turns_to_next_wave - 1) as i32, ..c },
            )),
            old(self).gate_state(id) is Some ==> r is Some && final(self).gate_state(id) is Some,
    {
        let ghost b = self.actors@;
        let r = match self.actors.get_mut(id) {
            Some(a) => match &mut a.extra {
                actors::Extra::City(st) => {
                    if st.turns_to_next_wave > i32::MIN {
                        st.turns_to_next_wave = st.turns_to_next_wave - 1;
                    }
                    Some((st.turns_to_next_wave, st.level))
                },
                _ => None,
            },
            None => None,
        };
        proof {
            assert(same_bodies(b, self.actors@));
            lemma_occupancy_same_bodies(self.grid, b, self.actors@, self.actor_at@, self.items@, self.item_at@);
        }
        r
    }

    /// After a wave: that gate's level follows the waves it has sent.
    fn city_level_up(&mut self, id: ActorId, evolution: i32)
        requires
            old(self).inv(),
            evolution >= 1,
        ensures
            final(self).inv(),
            old(self).kept_setup(&*final(self)),
            *final(self) == (Sim { actors: final(self).actors, ..*old(self) }),
            same_bodies(old(self).arena()@, final(self).arena()@),
            old(self).gate_state(id) is None ==> final(self).arena()@ == old(self).arena()@,
            old(self).gate_state(id) matches Some(c) ==> (final(self).gate_state(id) matches Some(c2) && c2.queue@
                == c.queue@ && c2.wave_number == c.wave_number && (0 <= c.wave_number && c.wave_number / evolution
                <= i32::MAX - 2 ==> c2.level == c.wave_number / evolution + 2)),
    {
        let ghost b = self.actors@;
        match self.actors.get_mut(id) {
            Some(a) => match &mut a.extra {
                actors::Extra::City(st) => {
                    let q = st.wave_number / evolution;
                    if q <= i32::MAX - 2 {
                        st.level = q + 2;
                    }
                },
                _ => {},
            },
            None => {},
        }
        proof {
            assert(same_bodies(b, self.actors@));
            lemma_occupancy_same_bodies(self.grid, b, self.actors@, self.actor_at@, self.items@, self.item_at@);
        }
    }

    /// Let the next waiting human out of a gate's queue, if one waits.
    fn city_release(&mut self, id: ActorId) -> (r: Option<Kind>)
        requires
            old(self).inv(),
        ensures
            final(self).inv(),
            old(self).kept_setup(&*final(self)),
            *final(self) == (Sim { actors: final(self).actors, ..*old(self) }),
            same_bodies(old(self).arena()@, final(self).arena()@),
            old(self).gate_state(id) matches Some(c) ==> (c.queue@.len() > 0 ==> r == Some(c.queue@[0]) && (
            final(self).gate_state(id) matches Some(c2) && c2.queue@ == c.queue@.drop_first())),
            !(old(self).gate_state(id) matches Some(c) && c.queue@.len() > 0) ==> r is None,
    {
        let ghost b = self.actors@;
        let r = match self.actors.get_mut(id) {
            Some(a) => match &mut a.extra {
                actors::Extra::City(st) => st.queue.pop_front(),
                _ => None,
            },
            None => None,
        };
        proof {
            assert(same_bodies(b, self.actors@));
            lemma_occupancy_same_bodies(self.grid, b, self.actors@, self.actor_at@, self.items@, self.item_at@);
        }
        r
    }

    /// Whether a gate has anybody waiting to come out.
    fn city_waiting(&self, id: ActorId) -> (b: bool)
        ensures
            b == (self.gate_state(id) matches Some(c) && c.queue@.len() > 0),
    {
        match self.actors.get(id) {
            Some(a) => match &a.extra {
                actors::Extra::City(st) => st.queue.len() > 0,
                _ => false,
            },
            None => false,
        }
    }

    /// A gate takes on a caravan it has just sent out: the next soldiers it
    /// releases are owed to it as escort.
    fn city_adopt(&mut self, gate: ActorId, caravan: ActorId)
        requires
            old(self).inv(),
        ensures
            final(self).inv(),
            old(self).kept_setup(&*final(self)),
            *final(self) == (Sim { actors: final(self).actors, ..*old(self) }),
            same_bodies(old(self).arena()@, final(self).arena()@),
            old(self).gate_state(gate) matches Some(c) ==> final(self).gate_state(gate) == Some(
                actors::CityState { convoy: Some(caravan), escorts: ESCORT_SIZE, ..c },
            ),
    {
        let ghost b = self.actors@;
        match self.actors.get_mut(gate) {
            Some(a) => match &mut a.extra {
                actors::Extra::City(st) => {
                    st.convoy = Some(caravan);
                    st.escorts = ESCORT_SIZE;
                },
                _ => {},
            },
            None => {},
        }
        proof {
            assert(same_bodies(b, self.actors@));
            lemma_occupancy_same_bodies(self.grid, b, self.actors@, self.actor_at@, self.items@, self.item_at@);
        }
    }

    /// A soldier coming out of a gate that still owes escorts: one fewer is
    /// owed, and the caravan it is owed to is returned.
    fn city_claim(&mut self, gate: ActorId) -> (r: Option<ActorId>)
        requires
            old(self).inv(),
        ensures
            final(self).inv(),
            old(self).kept_setup(&*final(self)),
            *final(self) == (Sim { actors: final(self).actors, ..*old(self) }),
            same_bodies(old(self).arena()@, final(self).arena()@),
            old(self).gate_state(gate) matches Some(c) ==> (c.escorts > 0 ==> r == c.convoy && final(self).gate_state(
                gate,
            ) == Some(actors::CityState { escorts: (c.escorts - 1) as i32, ..c })),
            !(old(self).gate_state(gate) matches Some(c) && c.escorts > 0) ==> r is None,
    {
        let ghost b = self.actors@;
        let r = match self.actors.get_mut(gate) {
            Some(a) => match &mut a.extra {
                actors::Extra::City(st) => {
                    if st.escorts > 0 {
                        st.escorts = st.escorts - 1;
                        st.convoy
                    } else {
                        None
                    }
                },
                _ => None,
            },
            None => None,
        };
        proof {
            assert(same_bodies(b, self.actors@));
            lemma_occupancy_same_bodies(self.grid, b, self.actors@, self.actor_at@, self.items@, self.item_at@);
        }
        r
    }

    /// Put every one of `wave` on the end of `q`, in order.
    fn push_all(q: &mut std::collections::VecDeque<Kind>, wave: &Vec<Kind>)
        ensures
            final(q)@ == old(q)@ + wave@,
    {
        let mut k: usize = 0;
        while k < wave.len()
            invariant
                k <= wave@.len(),
                q@ == old(q)@ + wave@.subrange(0, k as int),
            decreases wave@.len() - k,
        {
            q.push_back(wave[k]);
            proof {
                assert(wave@.subrange(0, k as int + 1) =~= wave@.subrange(0, k as int).push(wave@[k as int]));
            }
            k = k + 1;
        }
        proof {
            assert(wave@.subrange(0, wave@.len() as int) =~= wave@);
        }
    }

    /// Queue a wave at a gate: the humans go on the end of its queue, the
    /// wave count goes up by one and the timer is wound on by `rate`.
    fn city_enqueue(&mut self, id: ActorId, wave: &Vec<Kind>, rate: i32)
        requires
            old(self).inv(),
        ensures
            final(self).inv(),
            old(self).kept_setup(&*final(self)),
            *final(self) == (Sim { actors: final(self).actors, ..*old(self) }),
            same_bodies(old(self).arena()@, final(self).arena()@),
            old(self).gate_state(id) matches Some(c) ==> (final(self).gate_state(id) matches Some(c2) && c2.queue@
                == c.queue@ + wave@ && (c.wave_number < i32::MAX ==> c2.wave_number == c.wave_number + 1)),
    {
        let ghost b = self.actors@;
        match self.actors.get_mut(id) {
            Some(a) => match &mut a.extra {
                actors::Extra::City(st) => {
                    Self::push_all(&mut st.queue, wave);
                    if st.wave_number < i32::MAX {
                        st.wave_number = st.wave_number + 1;
                    }
                    let wound = st.turns_to_next_wave as i64 + rate as i64;
                    st.turns_to_next_wave = if wound > i32::MAX as i64 {
                        i32::MAX
                    } else if wound < i32::MIN as i64 {
                        i32::MIN
                    } else {
                        wound as i32
                    };
                },
                _ => {},
            },
            None => {},
        }
        proof {
            assert(same_bodies(b, self.actors@));
            lemma_occupancy_same_bodies(self.grid, b, self.actors@, self.actor_at@, self.items@, self.item_at@);
        }
    }

    /// Set where a human came out, one end of a garrison's beat.
    fn set_home(&mut self, id: ActorId, home: Coord)
        requires
            old(self).inv(),
        ensures
            final(self).inv(),
            old(self).kept_setup(&*final(self)),
            *final(self) == (Sim { actors: final(self).actors, ..*old(self) }),
            same_bodies(old(self).arena()@, final(self).arena()@),
            old(self).live(id) ==> final(self).actor(id).orders.home == home && final(self).actor(id).orders.duty
                == old(self).actor(id).orders.duty && final(self).actor(id).kind == old(self).actor(id).kind,
            forall|x: ActorId| x != id ==> #[trigger] final(self).gate_state(x) == old(self).gate_state(x),
    {
        let ghost b = self.actors@;
        match self.actors.get_mut(id) {
            Some(a) => {
                a.orders.home = home;
            },
            None => {},
        }
        proof {
            assert(same_bodies(b, self.actors@));
            lemma_occupancy_same_bodies(self.grid, b, self.actors@, self.actor_at@, self.items@, self.item_at@);
            assert forall|x: ActorId| x != id implies #[trigger] self.gate_state(x) == old(self).gate_state(x) by {
                if self.live(x) {
                    super::actors::ActorId::lemma_view_injective(x, id);
                }
            }
        }
    }

    /// Tell a human what it is for, the moment it steps out of `gate` onto
    /// `door`. A caravan is given a far gate to make for, and that gate owes
    /// it an escort; a soldier coming out while an escort is owed keeps
    /// station on that caravan. Whoever it is, `door` is its home.
    fn brief(&mut self, id: ActorId, gate: ActorId, door: Coord)
        requires
            old(self).inv(),
        ensures
            final(self).inv(),
            old(self).kept_setup(&*final(self)),
            old(self).unmoved(&*final(self)),
            old(self).live(id) ==> final(self).actor(id).orders.home == door,
    {
        let kind = match self.actors.get(id) {
            Some(a) => a.kind,
            None => {
                return ;
            },
        };
        let ghost o = *self;
        if is_caravan(kind) {
            self.assign_convoy_goal(id);
            let ghost m = *self;
            self.city_adopt(gate, id);
            let ghost n = *self;
            self.set_home(id, door);
            proof {
                assert(m.unmoved(&n));
                Sim::lemma_unmoved_trans(&o, &m, &n);
                Sim::lemma_unmoved_trans(&o, &n, &*self);
            }
            return ;
        }
        if !is_hunter_family(kind) && is_militia_family(kind) {
            let convoy = self.city_claim(gate);
            match convoy {
                Some(caravan) => {
                    if self.actors.get(caravan).is_some() {
                        self.set_duty(id, Duty::Escort(caravan));
                    }
                },
                None => {},
            }
        }
        let ghost m = *self;
        self.set_home(id, door);
        proof {
            assert(o.unmoved(&m));
            Sim::lemma_unmoved_trans(&o, &m, &*self);
        }
    }

    /// Fill a gate's queue with one wave's worth of humans bought from
    /// `budget`, with a caravan at its head on a lucky roll (one in four for
    /// the first wave, three in twenty up to the fourth, one in twenty
    /// after); the wave count goes up and the timer is wound on.
    fn spawn_next_wave(&mut self, id: ActorId, budget: i32)
        requires
            old(self).inv(),
        ensures
            final(self).inv(),
            old(self).kept_setup(&*final(self)),
            old(self).unmoved(&*final(self)),
            old(self).gate_state(id) matches Some(c) ==> (final(self).gate_state(id) matches Some(c2) && c.queue@.len()
                <= c2.queue@.len() && c2.queue@.subrange(0, c.queue@.len() as int) == c.queue@ && (c.wave_number
                < i32::MAX ==> c2.wave_number == c.wave_number + 1)),
    {
        let ghost o = *self;
        let mut queued: Vec<Kind> = Vec::new();
        let mut stock = budget;
        while stock > 0
            invariant
                old(self).kept_setup(&*self),
                self.inv(),
                o.chance_only(&*self),
            decreases stock,
        {
            stock = self.add_new_militia(stock, &mut queued);
        }
        let (wave, pos) = match self.actors.get(id) {
            Some(a) => match &a.extra {
                actors::Extra::City(st) => (st.wave_number, a.pos),
                _ => {
                    return ;
                },
            },
            None => {
                return ;
            },
        };
        let has_caravan = if wave == 0 {
            self.roll(0, 3) == 0
        } else if wave < 4 {
            self.roll(0, 19) <= 2
        } else {
            self.roll(0, 19) == 0
        };
        if has_caravan {
            queued.insert(0, Kind::Caravan);
        }
        let rate = self.rules.spawn_rate;
        let ghost m = *self;
        self.city_enqueue(id, &queued, rate);
        let ghost n = *self;
        proof {
            assert(o.unmoved(&m));
            assert(m.unmoved(&n));
            Sim::lemma_unmoved_trans(&o, &m, &n);
            if m.gate_state(id) is Some {
                let c = m.gate_state(id)->0;
                let c2 = n.gate_state(id)->0;
                assert(c2.queue@.subrange(0, c.queue@.len() as int) =~= c.queue@);
            }
        }
        self.effect_at(EffectKind::Wave, pos);
        self.cue(Cue::WaveSpawned);
    }

    /// A gate's turn: its timer counts down, and when it runs out a wave is
    /// queued and that gate levels up; under ten turns out it warns. Then it
    /// lets at most one waiting human out onto its doorway, which a body
    /// standing there blocks.
    pub fn city_act(&mut self, id: ActorId)
        requires
            old(self).inv(),
        ensures
            final(self).inv(),
            old(self).kept_setup(&*final(self)),
            old(self).gate_state(id) is None ==> final(self).arena()@ == old(self).arena()@,
            old(self).gate_state(id) matches Some(c) ==> ((c.turns_to_next_wave > 10 && c.queue@.len() == 0) ==> (
            final(self).gate_state(id) == Some(
                actors::CityState { turns_to_next_wave: (c.turns_to_next_wave - 1) as i32, ..c },
            ) && old(self).unmoved(&*final(self)))),
    {
        let ghost o = *self;
        let (countdown, level) = match self.city_tick(id) {
            Some(t) => t,
            None => {
                return ;
            },
        };
        if countdown <= 0 {
            let cap = self.rules.max_budget;
            let budget = if cap < level { cap } else { level };
            self.spawn_next_wave(id, budget);
            let evolution = if self.rules.evolution_rate > 1 { self.rules.evolution_rate } else { 1 };
            self.city_level_up(id, evolution);
        } else if countdown < 10 {
            self.cue(Cue::GateCountdown);
        }
        let ghost t = *self;
        proof {
            assert(o.unmoved(&t));
        }
        if !self.city_waiting(id) {
            return ;
        }
        let pos = match self.actors.get(id) {
            Some(a) => a.pos,
            None => {
                return ;
            },
        };
        let doors = self.grid.adjacent_walkable(pos);
        if doors.len() == 0 {
            return ;
        }
        let door = doors[0];
        proof {
            self.grid.lemma_adjacent_walkable_spec(pos);
            assert(self.grid.spec_in_bounds(doors@[0]) && self.grid.spec_cell(doors@[0]).walkable);
            self.lemma_occupant_live(door);
            if self.occupant(door) is Some {
                self.lemma_live_on_map(self.occupant(door)->0);
            }
        }
        let baby = match self.city_release(id) {
            Some(k) => k,
            None => {
                return ;
            },
        };
        proof {
            self.lemma_occupant_live(door);
            if self.occupant(door) is Some {
                self.lemma_live_on_map(self.occupant(door)->0);
            }
        }
        let born = self.add_actor(baby, door);
        self.brief(born, id, door);
        self.effect(EffectKind::Produce, pos, door);
    }

    /// A tentacle's turn: it hunts any human but a caravan it can see,
    /// through your body only, and backs away from a tank right beside it,
    /// which it cannot chew.
    pub fn tentacle_act(&mut self, id: ActorId)
        requires
            old(self).inv(),
        ensures
            final(self).inv(),
            old(self).kept_setup(&*final(self)),
            !old(self).live(id) ==> *final(self) == *old(self),
    {
        let pos = match self.actors.get(id) {
            Some(a) => a.pos,
            None => {
                return ;
            },
        };
        let targets = self.seen(id, Sought::Prey);
        let mut tanks: Vec<Coord> = Vec::new();
        let mut others: Vec<Coord> = Vec::new();
        let mut near = false;
        let mut k: usize = 0;
        while k < targets.len()
            invariant
                old(self).kept_setup(&*self),
                self.inv(),
                k <= targets@.len(),
            decreases targets@.len() - k,
        {
            match self.actors.get(targets[k]) {
                Some(a) => {
                    if is_tank_family(a.kind) {
                        tanks.push(a.pos);
                        if taxi_wide(a.pos, pos) <= TERROR_RADIUS as i64 {
                            near = true;
                        }
                    } else {
                        others.push(a.pos);
                    }
                },
                None => {},
            }
            k = k + 1;
        }
        if near {
            let step = self.immediate_uphill_step(id, &tanks, true);
            if step != pos {
                self.attack_move(id, step);
                return ;
            }
        }
        let cells = if tanks.len() > 0 {
            others
        } else {
            let mut all = others;
            all.append(&mut tanks);
            all
        };
        if cells.len() == 0 {
            return ;
        }
        self.advance_toward(id, &cells);
    }
}

} // verus!
