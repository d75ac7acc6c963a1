//! The whole simulation: pure, deterministic, and free of any frontend.
//!
//! You are a set of organelles rather than a single body. There is no "player
//! entity" anywhere in here: the mass is a list, your score is its length,
//! and any gate you are trying to break needs a certain number of you leaning
//! on it. Everything else follows from that.
//!
//! Time is discrete and event-driven rather than fixed-step. Everything that
//! acts sits in the [`schedule`], sixteen time units make a turn, and the
//! world runs itself forward until a nucleus comes up.

pub mod actors;
pub mod ai;
pub mod effect;
pub mod grid;
pub mod humans;
pub mod log;
pub mod mapgen;
pub mod player;
pub mod schedule;
pub mod view;

use std::collections::VecDeque;

use fastrand::Rng;
use vstd::prelude::*;

use actors::{palette, Rgb, is_city, is_nucleus_family, is_npc, is_organelle, ActorId, ActorStore, Item, ItemId, ItemKind, ItemStore, Kind, Reticle};
use effect::{Effect, EffectKind};
use grid::{coord_of, flat_index, iabs, lemma_coord_of, lemma_flat_index, rand_inclusive, rand_index, taxi_spec, Coord, Dir, Grid};
use log::{decimal, decimal_text, join_text, lemma_flatten3, said_all, signed_decimal, signed_text, MessageLog, OrganelleLog};
use schedule::Schedule;
use view::{CellView, Described, ExamineView, Gauge, Meter, OrganelleEntry, RenderView, Status, Telegraph};

verus! {

/// How hard the humans push back, and how big the cavern is.
#[derive(Clone, Copy, PartialEq, Eq, Structural, Debug, Default, Hash)]
pub enum Difficulty {
    /// Twelve gates, eight of which you must break.
    #[default]
    Normal,
    /// Fewer gates and slower waves.
    Easy,
    /// A wider cavern, sixteen gates, and every one of them must fall.
    Gj,
}

/// Everything a [`Difficulty`] decides.
#[derive(Clone, Copy, PartialEq, Eq, Structural, Debug)]
pub struct Rules {
    /// Map columns.
    pub map_width: i32,
    /// Map rows.
    pub map_height: i32,
    /// Turns between a gate's waves, after the first.
    pub spawn_rate: i32,
    /// Waves per step up in wave budget.
    pub evolution_rate: i32,
    /// Ceiling on a wave's budget.
    pub max_budget: i32,
    /// Mass the first gate costs to break, and what every gate after it adds.
    pub city_armor_step: i32,
    /// Gates the map is generated with.
    pub num_cities: i32,
    /// Gates you may leave standing and still escape.
    pub grace_cities: i32,
}

/// The table of constants each difficulty runs on.
pub open spec fn rules_of(d: Difficulty) -> Rules {
    match d {
        Difficulty::Normal => Rules {
            map_width: 48,
            map_height: 48,
            spawn_rate: 50,
            evolution_rate: 6,
            max_budget: 5,
            city_armor_step: 20,
            num_cities: 12,
            grace_cities: 4,
        },
        Difficulty::Easy => Rules {
            map_width: 48,
            map_height: 48,
            spawn_rate: 75,
            evolution_rate: 7,
            max_budget: 5,
            city_armor_step: 20,
            num_cities: 10,
            grace_cities: 4,
        },
        Difficulty::Gj => Rules {
            map_width: 64,
            map_height: 48,
            spawn_rate: 50,
            evolution_rate: 5,
            max_budget: 6,
            city_armor_step: 32,
            num_cities: 16,
            grace_cities: 0,
        },
    }
}

/// The title-screen name of each difficulty.
pub open spec fn difficulty_name(d: Difficulty) -> Seq<char> {
    match d {
        Difficulty::Normal => "Normal"@,
        Difficulty::Easy => "Easy"@,
        Difficulty::Gj => "GJ"@,
    }
}

impl Difficulty {
    /// The constants this difficulty runs on.
    pub fn rules(self) -> (r: Rules)
        ensures
            r == rules_of(self),
    {
        match self {
            Difficulty::Normal => Rules {
                map_width: 48,
                map_height: 48,
                spawn_rate: 50,
                evolution_rate: 6,
                max_budget: 5,
                city_armor_step: 20,
                num_cities: 12,
                grace_cities: 4,
            },
            Difficulty::Easy => Rules {
                map_width: 48,
                map_height: 48,
                spawn_rate: 75,
                evolution_rate: 7,
                max_budget: 5,
                city_armor_step: 20,
                num_cities: 10,
                grace_cities: 4,
            },
            Difficulty::Gj => Rules {
                map_width: 64,
                map_height: 48,
                spawn_rate: 50,
                evolution_rate: 5,
                max_budget: 6,
                city_armor_step: 32,
                num_cities: 16,
                grace_cities: 0,
            },
        }
    }

    /// The name to show on a title screen.
    pub fn name(self) -> (r: &'static str)
        ensures
            r@ == difficulty_name(self),
    {
        match self {
            Difficulty::Normal => "Normal",
            Difficulty::Easy => "Easy",
            Difficulty::Gj => "GJ",
        }
    }
}

/// Mass needed to break the next gate once `destroyed` of them have fallen.
pub open spec fn armor_for(r: Rules, destroyed: int) -> int {
    (destroyed + 1) * r.city_armor_step
}

impl Rules {
    /// Gates you must actually destroy.
    pub fn cities_required(&self) -> (n: i32)
        requires
            i32::MIN <= self.num_cities - self.grace_cities <= i32::MAX,
        ensures
            n == self.num_cities - self.grace_cities,
    {
        self.num_cities - self.grace_cities
    }

    /// Mass needed to break the next gate once `destroyed` of them have fallen.
    pub fn city_armor(&self, destroyed: i32) -> (a: i32)
        requires
            i32::MIN <= armor_for(*self, destroyed as int) <= i32::MAX,
            destroyed < i32::MAX,
        ensures
            a == armor_for(*self, destroyed as int),
    {
        (destroyed + 1) * self.city_armor_step
    }
}

/// Every gate costs exactly one armour step more than the one before it, and
/// the first costs one step.
pub proof fn law_every_gate_costs_one_step_more(r: Rules, destroyed: int)
    ensures
        armor_for(r, destroyed + 1) == armor_for(r, destroyed) + r.city_armor_step,
        armor_for(r, 0) == r.city_armor_step,
{
    assert((destroyed + 2) * r.city_armor_step == (destroyed + 1) * r.city_armor_step
        + r.city_armor_step) by (nonlinear_arith);
}

/// On every difficulty a run can win: the gates required are between one and
/// the gates generated, and the map fits a 64-by-48 console.
pub proof fn law_every_difficulty_is_winnable(d: Difficulty)
    ensures
        1 <= rules_of(d).num_cities - rules_of(d).grace_cities <= rules_of(d).num_cities,
        0 < rules_of(d).map_width <= 64,
        0 < rules_of(d).map_height <= 48,
        rules_of(d).city_armor_step > 0,
{
}

/// Where the run is.
#[derive(Clone, Copy, PartialEq, Eq, Structural, Debug)]
pub enum Phase {
    /// No map yet; waiting for a difficulty to be chosen.
    Title,
    /// A run in progress.
    Playing,
    /// The run is over and the map is frozen behind the final messages.
    GameOver {
        /// Whether you escaped rather than died.
        won: bool,
    },
}

/// How the player is asking for things, which is all the sim's own prose needs
/// to know about the frontend.
#[derive(Clone, Copy, PartialEq, Eq, Structural, Debug, Default)]
pub enum InputStyle {
    /// A keyboard, which the lines can name keys for.
    #[default]
    Keys,
    /// A touchscreen, where the on-screen buttons are the only controls.
    Touch,
}

/// Which panel the interface is showing, and therefore what the arrow keys do.
#[derive(Clone, Copy, PartialEq, Eq, Structural, Debug, Default)]
pub enum UiMode {
    /// The message log. Arrows move the active nucleus.
    #[default]
    Messages,
    /// The organelle list. Arrows move the selection.
    Organelles,
    /// The examine cursor. Arrows move the cursor.
    Examine,
}

/// Everything the player can ask for.
#[derive(Clone, Copy, PartialEq, Eq, Structural, Debug)]
pub enum Command {
    /// Leave the title screen and generate a map.
    Start(Difficulty),
    /// Move, swap, eat or break a gate in a direction.
    Move(Dir),
    /// Pass the turn.
    Wait,
    /// Hand control to the next or previous nucleus. Free.
    CycleNucleus {
        /// Forwards through the acquisition order, or backwards.
        forward: bool,
    },
    /// Enter or leave examine mode.
    ToggleExamine,
    /// Move the examine cursor. Ignored outside examine mode.
    MoveCursor(Dir),
    /// Enter or leave the organelle browser.
    ToggleOrganelles,
    /// Move the organelle selection.
    ScrollOrganelles(i32),
    /// Move the organelle list by whole pages.
    PageOrganelles(i32),
    /// Leave whatever panel is open.
    Back,
    /// Print the controls into the message log.
    Help,
    /// Start a fresh run once this one is over.
    Restart {
        /// Seed for the new run.
        seed: u64,
    },
}

/// Something that just happened, for the frontend to make a noise about.
///
/// A cue says what happened, never what it should sound like, and lives for
/// exactly one advance of the world.
#[derive(Clone, Copy, PartialEq, Eq, Structural, Debug)]
pub enum Cue {
    /// The mass flowed one cell.
    Step,
    /// An action was refused: a wall, armour, or too little mass.
    Bump,
    /// An organelle traded places with another.
    Swap,
    /// A human was consumed by contact.
    Eat,
    /// A catalyst was absorbed.
    Ingest,
    /// A sealed-in group of humans was captured at once.
    Engulf,
    /// A dissolving human finished and became something useful.
    Digest,
    /// Something of yours other than a nucleus was destroyed or shot away.
    OrganelleLost,
    /// A nucleus died.
    NucleusLost,
    /// An organelle finished an upgrade and became something else.
    Upgrade,
    /// A producer put something new into the world.
    Produce,
    /// A ranged human painted a line and is now aiming down it.
    Aim,
    /// A ranged human fired.
    Shot,
    /// A terror core took an adjacent human's turn away.
    Terrify,
    /// A gate queued a fresh wave.
    WaveSpawned,
    /// A gate is fewer than ten turns from its next wave.
    GateCountdown,
    /// A caravan reached a gate and left the map with its cargo.
    Depart,
    /// A gate came down.
    CityDestroyed,
    /// The run ended in escape.
    Win,
    /// The run ended in death.
    Lose,
}

/// Effects one advance reports before it stops recording: a runaway
/// backstop far above what any frontend draws.
pub const MAX_EFFECTS: usize = 4096;

/// How far from the cell it pulls toward a gravity core can reach.
pub const GRAVITY_RANGE: i32 = 2;

/// How many pulls a gravity core tries after each move.
pub const GRAVITY_ATTEMPTS: u32 = 2;

/// How much health a cultivator puts back into a corpse each turn.
pub const CULTIVATOR_HEAL: i32 = 2;

/// How much a cultivator overfills a corpse each turn.
pub const OVERFILL_RATE: i32 = 1;

/// Unupgraded nuclei the primordial soup will make more than.
pub const SOUP_NUCLEUS_CAP: usize = 4;

/// `v`, or one if it is smaller: what a bar's whole is never below.
pub open spec fn at_least_one(v: i32) -> i32 {
    if v < 1 {
        1
    } else {
        v
    }
}

/// The executable form of [`at_least_one`].
pub fn one_or_more(v: i32) -> (r: i32)
    ensures
        r == at_least_one(v),
{
    if v < 1 {
        1
    } else {
        v
    }
}

/// Where `x` first occurs in `s`, if it does.
pub open spec fn first_index(s: Seq<ActorId>, x: ActorId) -> Option<int> {
    if s.contains(x) {
        Some(choose|i: int| 0 <= i < s.len() && s[i] == x && forall|j: int| 0 <= j < i ==> s[j] != x)
    } else {
        None
    }
}

/// What [`first_index`] finds is the first occurrence, and it finds one
/// whenever there is one.
pub proof fn lemma_first_index(s: Seq<ActorId>, x: ActorId)
    ensures
        first_index(s, x) matches Some(i) ==> 0 <= i < s.len() && s[i] == x && forall|j: int| 0 <= j < i ==> s[j] != x,
        first_index(s, x) is None ==> !s.contains(x),
{
    if s.contains(x) {
        let k = choose|k: int| 0 <= k < s.len() && s[k] == x;
        lemma_first_below(s, x, k);
    }
}

/// Below any occurrence there is a first one.
proof fn lemma_first_below(s: Seq<ActorId>, x: ActorId, k: int)
    requires
        0 <= k < s.len(),
        s[k] == x,
    ensures
        exists|i: int| 0 <= i < s.len() && s[i] == x && forall|j: int| 0 <= j < i ==> s[j] != x,
    decreases k,
{
    if exists|j: int| 0 <= j < k && s[j] == x {
        let j = choose|j: int| 0 <= j < k && s[j] == x;
        lemma_first_below(s, x, j);
    } else {
        assert(0 <= k < s.len() && s[k] == x && forall|j: int| 0 <= j < k ==> s[j] != x);
    }
}

/// The executable form of [`first_index`].
pub fn position(s: &Vec<ActorId>, x: ActorId) -> (r: Option<usize>)
    ensures
        r matches Some(i) ==> first_index(s@, x) == Some(i as int),
        r is None ==> first_index(s@, x) is None,
{
    let mut i: usize = 0;
    while i < s.len()
        invariant
            i <= s@.len(),
            forall|j: int| 0 <= j < i ==> s@[j] != x,
        decreases s@.len() - i,
    {
        if s[i] == x {
            proof {
                let w = i as int;
                assert(0 <= w < s@.len() && s@[w] == x && forall|j: int| 0 <= j < w ==> s@[j] != x);
                assert(s@.contains(x));
                let c = choose|c: int| 0 <= c < s@.len() && s@[c] == x && forall|j: int| 0 <= j < c ==> s@[j] != x;
                assert(c == w);
            }
            return Some(i);
        }
        i = i + 1;
    }
    proof {
        assert(!s@.contains(x));
    }
    None
}

/// Whether two colours are the same.
pub fn same_rgb(a: Rgb, b: Rgb) -> (r: bool)
    ensures
        r == (a == b),
{
    let r = a[0] == b[0] && a[1] == b[1] && a[2] == b[2];
    proof {
        if r {
            assert(a =~= b);
        }
    }
    r
}

/// Join `parts` into one line and add it to `lines`.
pub fn add_line(lines: &mut Vec<String>, parts: &[&str])
    ensures
        final(lines)@.map_values(|s: String| s@) == old(lines)@.map_values(|s: String| s@).push(
            parts@.map_values(|p: &str| p@).flatten(),
        ),
{
    let line = join_text(parts);
    let ghost before = lines@;
    lines.push(line);
    proof {
        assert(lines@.map_values(|s: String| s@) =~= before.map_values(|s: String| s@).push(line@));
    }
}

/// Whether two cells share an edge.
pub fn touching(a: Coord, b: Coord) -> (t: bool)
    ensures
        t == (taxi_spec(a, b) == 1),
{
    let dx: i64 = a.x as i64 - b.x as i64;
    let dy: i64 = a.y as i64 - b.y as i64;
    let ax: i64 = if dx < 0 {
        -dx
    } else {
        dx
    };
    let ay: i64 = if dy < 0 {
        -dy
    } else {
        dy
    };
    ax + ay == 1
}

/// Whether two cells are at most `r` steps apart, counted along the grid.
pub fn within(a: Coord, b: Coord, r: i32) -> (w: bool)
    ensures
        w == (taxi_spec(a, b) <= r),
{
    let dx: i64 = a.x as i64 - b.x as i64;
    let dy: i64 = a.y as i64 - b.y as i64;
    let ax: i64 = if dx < 0 {
        -dx
    } else {
        dx
    };
    let ay: i64 = if dy < 0 {
        -dy
    } else {
        dy
    };
    ax + ay <= r as i64
}

/// Somewhere a human has heard the amoeba is.
#[derive(Clone, Copy, PartialEq, Eq, Structural, Debug)]
pub struct Rumor {
    /// Where the amoeba was said to be.
    pub pos: Coord,
    /// The instant this stops being news.
    pub until: u64,
}

/// Whether a slot of an arena holds something.
pub open spec fn holds<T>(store: Seq<Option<T>>, i: nat) -> bool {
    i < store.len() && store[i as int] is Some
}

/// Every index agrees with every store: an indexed cell names a live actor
/// standing there, and every live actor stands on an in-bounds, unwalkable
/// cell that indexes it. The same holds of items, without the walkability.
#[verifier::opaque]
pub open spec fn occupancy_agrees(
    grid: Grid,
    actors: Seq<Option<actors::Actor>>,
    actor_at: Seq<Option<ActorId>>,
    items: Seq<Option<Item>>,
    item_at: Seq<Option<ItemId>>,
) -> bool {
    &&& forall|i: int|
        0 <= i < actor_at.len() && (#[trigger] actor_at[i]) is Some ==> holds(actors, actor_at[i]->0@)
            && actors[actor_at[i]->0@ as int]->0.pos == coord_of(grid.spec_width(), i)
    &&& forall|n: nat|
        #[trigger] holds(actors, n) ==> {
            let at = actor_at[flat_index(grid.spec_width(), actors[n as int]->0.pos)];
            &&& grid.spec_in_bounds(actors[n as int]->0.pos)
            &&& at is Some
            &&& at->0@ == n
            &&& !grid.spec_cell(actors[n as int]->0.pos).walkable
        }
    &&& forall|i: int|
        0 <= i < item_at.len() && (#[trigger] item_at[i]) is Some ==> holds(items, item_at[i]->0@)
            && items[item_at[i]->0@ as int]->0.pos == coord_of(grid.spec_width(), i)
    &&& forall|n: nat|
        #[trigger] holds(items, n) ==> {
            let at = item_at[flat_index(grid.spec_width(), items[n as int]->0.pos)];
            &&& grid.spec_in_bounds(items[n as int]->0.pos)
            &&& at is Some
            &&& at->0@ == n
        }
}

/// `s` without any copy of `x`, order kept.
pub open spec fn without<T>(s: Seq<T>, x: T) -> Seq<T>
    decreases s.len(),
{
    if s.len() == 0 {
        s
    } else if s.last() == x {
        without(s.drop_last(), x)
    } else {
        without(s.drop_last(), x).push(s.last())
    }
}

/// Nothing but copies of `x` is dropped, and no copy of `x` is left.
pub proof fn lemma_without<T>(s: Seq<T>, x: T)
    ensures
        !without(s, x).contains(x),
        forall|y: T| y != x ==> (#[trigger] without(s, x).contains(y) <==> s.contains(y)),
        without(s, x).len() <= s.len(),
    decreases s.len(),
{
    if s.len() > 0 {
        let d = s.drop_last();
        lemma_without(d, x);
        assert forall|y: T| y != x implies (#[trigger] without(s, x).contains(y) <==> s.contains(y)) by {
            lemma_contains_drop_last(s, y);
            if s.last() != x {
                lemma_contains_push(without(d, x), s.last(), y);
            }
        }
        if s.last() != x {
            lemma_contains_push(without(d, x), s.last(), x);
        }
    }
}

/// A sequence holds `y` exactly when its front does or its last item is `y`.
proof fn lemma_contains_drop_last<T>(s: Seq<T>, y: T)
    requires
        s.len() > 0,
    ensures
        s.contains(y) <==> (s.drop_last().contains(y) || s.last() == y),
{
    if s.contains(y) {
        let k = choose|k: int| 0 <= k < s.len() && s[k] == y;
        if k < s.len() - 1 {
            assert(s.drop_last()[k] == y);
        }
    }
    if s.drop_last().contains(y) {
        let k = choose|k: int| 0 <= k < s.drop_last().len() && s.drop_last()[k] == y;
        assert(s[k] == y);
    }
    if s.last() == y {
        assert(s[s.len() - 1] == y);
    }
}

/// Pushing `v` adds exactly `v`.
proof fn lemma_contains_push<T>(s: Seq<T>, v: T, y: T)
    ensures
        s.push(v).contains(y) <==> (s.contains(y) || v == y),
{
    lemma_contains_drop_last(s.push(v), y);
    assert(s.push(v).drop_last() =~= s);
}

/// Remove every copy of `x` from `v`, keeping the order of the rest.
fn remove_all(v: &mut Vec<ActorId>, x: ActorId)
    ensures
        final(v)@ == without(old(v)@, x),
{
    let mut out: Vec<ActorId> = Vec::new();
    let mut i: usize = 0;
    while i < v.len()
        invariant
            i <= v@.len(),
            out@ == without(v@.subrange(0, i as int), x),
        decreases v@.len() - i,
    {
        let y = v[i];
        proof {
            assert(v@.subrange(0, i as int + 1).drop_last() =~= v@.subrange(0, i as int));
        }
        if y != x {
            out.push(y);
        }
        i = i + 1;
    }
    proof {
        assert(v@.subrange(0, v@.len() as int) =~= v@);
    }
    *v = out;
}

/// The marks not painted by `owner`, order kept.
pub open spec fn marks_without(s: Seq<Reticle>, owner: ActorId) -> Seq<Reticle>
    decreases s.len(),
{
    if s.len() == 0 {
        s
    } else if s.last().owner == owner {
        marks_without(s.drop_last(), owner)
    } else {
        marks_without(s.drop_last(), owner).push(s.last())
    }
}

/// Drop every mark `owner` painted.
fn drop_marks(v: &mut Vec<Reticle>, owner: ActorId)
    ensures
        final(v)@ == marks_without(old(v)@, owner),
{
    let mut out: Vec<Reticle> = Vec::new();
    let mut i: usize = 0;
    while i < v.len()
        invariant
            i <= v@.len(),
            out@ == marks_without(v@.subrange(0, i as int), owner),
        decreases v@.len() - i,
    {
        let r = v[i];
        proof {
            assert(v@.subrange(0, i as int + 1).drop_last() =~= v@.subrange(0, i as int));
        }
        if r.owner != owner {
            out.push(r);
        }
        i = i + 1;
    }
    proof {
        assert(v@.subrange(0, v@.len() as int) =~= v@);
    }
    *v = out;
}

/// Euclidean remainder of a negative number, through that of its negation.
pub proof fn lemma_negative_mod(v: int, n: int)
    requires
        v < 0,
        n > 0,
    ensures
        v % n == (if (-v) % n == 0 {
            0
        } else {
            n - (-v) % n
        }),
{
    let m = -v;
    let a = m / n;
    let r = m % n;
    vstd::arithmetic::div_mod::lemma_fundamental_div_mod(m, n);
    assert(m == n * a + r);
    assert(0 <= r < n) by {
        vstd::arithmetic::div_mod::lemma_mod_bound(m, n);
    }
    if r == 0 {
        assert(v == (-a) * n + 0) by (nonlinear_arith)
            requires
                m == n * a + r,
                r == 0,
                v == -m,
        ;
        vstd::arithmetic::div_mod::lemma_fundamental_div_mod_converse(v, n, -a, 0);
    } else {
        assert(v == (-a - 1) * n + (n - r)) by (nonlinear_arith)
            requires
                m == n * a + r,
                v == -m,
        ;
        vstd::arithmetic::div_mod::lemma_fundamental_div_mod_converse(v, n, -a - 1, n - r);
    }
}

/// Two arenas hold the same bodies: the same slots alive, and every live
/// actor of the same kind, on the same cell, with the same slime. Speeds and
/// other running state may differ.
pub open spec fn same_bodies(a: Seq<Option<actors::Actor>>, b: Seq<Option<actors::Actor>>) -> bool {
    &&& a.len() == b.len()
    &&& forall|j: int|
        0 <= j < a.len() ==> ((#[trigger] a[j]) is Some <==> b[j] is Some) && (a[j] is Some ==> a[j]->0.kind
            == b[j]->0.kind && a[j]->0.pos == b[j]->0.pos && a[j]->0.slime == b[j]->0.slime && a[j]->0.anchor
            == b[j]->0.anchor)
}

/// Two arenas have the same actors alive, each of the same kind and on the
/// same cell; anything else about them may differ.
pub open spec fn same_places(a: Seq<Option<actors::Actor>>, b: Seq<Option<actors::Actor>>) -> bool {
    &&& a.len() == b.len()
    &&& forall|j: int|
        0 <= j < a.len() ==> ((#[trigger] a[j]) is Some <==> b[j] is Some) && (a[j] is Some ==> a[j]->0.kind
            == b[j]->0.kind && a[j]->0.pos == b[j]->0.pos && a[j]->0.anchor == b[j]->0.anchor)
}

/// Two arenas have the same actors alive, each on the same cell; anything
/// else about them may differ.
pub open spec fn same_spots(a: Seq<Option<actors::Actor>>, b: Seq<Option<actors::Actor>>) -> bool {
    &&& a.len() == b.len()
    &&& forall|j: int|
        0 <= j < a.len() ==> ((#[trigger] a[j]) is Some <==> b[j] is Some) && (a[j] is Some ==> a[j]->0.pos
            == b[j]->0.pos)
}

/// Two arenas have the same actors alive, each of the same kind and equally
/// anchored; where they stand and anything else may differ.
pub open spec fn same_kinds(a: Seq<Option<actors::Actor>>, b: Seq<Option<actors::Actor>>) -> bool {
    &&& a.len() == b.len()
    &&& forall|j: int|
        0 <= j < a.len() ==> ((#[trigger] a[j]) is Some <==> b[j] is Some) && (a[j] is Some ==> a[j]->0.kind
            == b[j]->0.kind && a[j]->0.anchor == b[j]->0.anchor)
}

/// Live actors of an arena that `p` holds of.
pub open spec fn count_actors(s: Seq<Option<actors::Actor>>, p: spec_fn(actors::Actor) -> bool) -> nat {
    count_where(s.len(), |i: nat| holds(s, i) && p(s[i as int]->0))
}

/// Crafting materials in an arena.
pub open spec fn materials(s: Seq<Option<actors::Actor>>) -> nat {
    count_actors(s, |a: actors::Actor| actors::is_crafting_material(a.kind))
}

/// Gravity cores in an arena that are not in the middle of a pull.
pub open spec fn free_cores(s: Seq<Option<actors::Actor>>) -> nat {
    count_actors(s, |a: actors::Actor| a.kind == Kind::GravityCore && !a.anchor)
}

/// Counting after a spawn.
pub proof fn lemma_count_actors_push(s: Seq<Option<actors::Actor>>, a: actors::Actor, p: spec_fn(actors::Actor) -> bool)
    ensures
        count_actors(s.push(Some(a)), p) == count_actors(s, p) + (if p(a) { 1nat } else { 0nat }),
{
    let t = s.push(Some(a));
    let f = |i: nat| holds(s, i) && p(s[i as int]->0);
    let g = |i: nat| holds(t, i) && p(t[i as int]->0);
    assert forall|i: nat| i < s.len() implies #[trigger] g(i) == f(i) by {
        assert(t[i as int] == s[i as int]);
    }
    lemma_count_eq(s.len(), f, g);
    assert(t[s.len() as int] == Some(a));
}

/// Counting after a slot empties.
pub proof fn lemma_count_actors_clear(s: Seq<Option<actors::Actor>>, k: int, p: spec_fn(actors::Actor) -> bool)
    requires
        0 <= k < s.len(),
        s[k] is Some,
    ensures
        count_actors(s.update(k, None), p) + (if p(s[k]->0) { 1nat } else { 0nat }) == count_actors(s, p),
{
    let t = s.update(k, None);
    let f = |i: nat| holds(s, i) && p(s[i as int]->0);
    let g = |i: nat| holds(t, i) && p(t[i as int]->0);
    if p(s[k]->0) {
        assert(f(k as nat));
        lemma_count_drop(s.len(), f, g, k as nat);
    } else {
        assert forall|i: nat| i < s.len() implies #[trigger] g(i) == f(i) by {}
        lemma_count_eq(s.len(), f, g);
    }
}

/// Counting after one live slot is replaced.
pub proof fn lemma_count_actors_set(
    s: Seq<Option<actors::Actor>>,
    k: int,
    b: actors::Actor,
    p: spec_fn(actors::Actor) -> bool,
)
    requires
        0 <= k < s.len(),
        s[k] is Some,
    ensures
        count_actors(s.update(k, Some(b)), p) + (if p(s[k]->0) { 1nat } else { 0nat }) == count_actors(s, p) + (
        if p(b) {
            1nat
        } else {
            0nat
        }),
{
    let t = s.update(k, Some(b));
    lemma_count_actors_clear(s, k, p);
    lemma_count_actors_clear(t, k, p);
    assert(t.update(k, None) =~= s.update(k, None));
}

/// Arenas with the same kinds count the same materials, free cores and
/// humans.
pub proof fn lemma_counts_same_kinds(a: Seq<Option<actors::Actor>>, b: Seq<Option<actors::Actor>>)
    requires
        same_kinds(a, b),
    ensures
        materials(a) == materials(b),
        free_cores(a) == free_cores(b),
        npc_count(a) == npc_count(b),
{
    let pm = |x: actors::Actor| actors::is_crafting_material(x.kind);
    let pf = |x: actors::Actor| x.kind == Kind::GravityCore && !x.anchor;
    let fm = |i: nat| holds(a, i) && pm(a[i as int]->0);
    let gm = |i: nat| holds(b, i) && pm(b[i as int]->0);
    assert forall|i: nat| i < a.len() implies #[trigger] gm(i) == fm(i) by {
        assert(a[i as int] is Some <==> b[i as int] is Some);
    }
    lemma_count_eq(a.len(), fm, gm);
    let ff = |i: nat| holds(a, i) && pf(a[i as int]->0);
    let gf = |i: nat| holds(b, i) && pf(b[i as int]->0);
    assert forall|i: nat| i < a.len() implies #[trigger] gf(i) == ff(i) by {
        assert(a[i as int] is Some <==> b[i as int] is Some);
    }
    lemma_count_eq(a.len(), ff, gf);
    let fn_ = |i: nat| holds(a, i) && actors::is_npc(a[i as int]->0.kind);
    let gn = |i: nat| holds(b, i) && actors::is_npc(b[i as int]->0.kind);
    assert forall|i: nat| i < a.len() implies #[trigger] gn(i) == fn_(i) by {
        assert(a[i as int] is Some <==> b[i as int] is Some);
    }
    lemma_count_eq(a.len(), fn_, gn);
}

/// The indices only look at which actors are alive and where they stand, so
/// arenas with the same actors on the same cells agree with the same indices.
proof fn lemma_occupancy_same_spots(
    grid: Grid,
    a1: Seq<Option<actors::Actor>>,
    a2: Seq<Option<actors::Actor>>,
    actor_at: Seq<Option<ActorId>>,
    items: Seq<Option<Item>>,
    item_at: Seq<Option<ItemId>>,
)
    requires
        occupancy_agrees(grid, a1, actor_at, items, item_at),
        same_spots(a1, a2),
    ensures
        occupancy_agrees(grid, a2, actor_at, items, item_at),
{
    reveal(occupancy_agrees);
    assert forall|i: int|
        0 <= i < actor_at.len() && (#[trigger] actor_at[i]) is Some implies holds(a2, actor_at[i]->0@)
            && a2[actor_at[i]->0@ as int]->0.pos == coord_of(grid.spec_width(), i) by {
        assert(holds(a1, actor_at[i]->0@));
        assert(a1[actor_at[i]->0@ as int] is Some);
    }
    assert forall|n: nat| #[trigger] holds(a2, n) implies {
        let at = actor_at[flat_index(grid.spec_width(), a2[n as int]->0.pos)];
        &&& grid.spec_in_bounds(a2[n as int]->0.pos)
        &&& at is Some
        &&& at->0@ == n
        &&& !grid.spec_cell(a2[n as int]->0.pos).walkable
    } by {
        assert(a2[n as int] is Some);
        assert(holds(a1, n));
    }
}

/// The same, for arenas with the same places.
proof fn lemma_occupancy_same_places(
    grid: Grid,
    a1: Seq<Option<actors::Actor>>,
    a2: Seq<Option<actors::Actor>>,
    actor_at: Seq<Option<ActorId>>,
    items: Seq<Option<Item>>,
    item_at: Seq<Option<ItemId>>,
)
    requires
        occupancy_agrees(grid, a1, actor_at, items, item_at),
        same_places(a1, a2),
    ensures
        occupancy_agrees(grid, a2, actor_at, items, item_at),
{
    lemma_occupancy_same_spots(grid, a1, a2, actor_at, items, item_at);
}

/// Arenas with the same places hold the same humans.
pub proof fn lemma_npc_same_places(a: Seq<Option<actors::Actor>>, b: Seq<Option<actors::Actor>>)
    requires
        same_places(a, b),
    ensures
        npc_count(a) == npc_count(b),
{
    let f = |i: nat| holds(a, i) && actors::is_npc(a[i as int]->0.kind);
    let g = |i: nat| holds(b, i) && actors::is_npc(b[i as int]->0.kind);
    assert forall|i: nat| i < a.len() implies #[trigger] g(i) == f(i) by {
        assert(a[i as int] is Some <==> b[i as int] is Some);
    }
    lemma_count_eq(a.len(), f, g);
}

/// The same, for arenas holding the same bodies.
proof fn lemma_occupancy_same_bodies(
    grid: Grid,
    a1: Seq<Option<actors::Actor>>,
    a2: Seq<Option<actors::Actor>>,
    actor_at: Seq<Option<ActorId>>,
    items: Seq<Option<Item>>,
    item_at: Seq<Option<ItemId>>,
)
    requires
        occupancy_agrees(grid, a1, actor_at, items, item_at),
        same_bodies(a1, a2),
    ensures
        occupancy_agrees(grid, a2, actor_at, items, item_at),
{
    lemma_occupancy_same_spots(grid, a1, a2, actor_at, items, item_at);
}

/// How many of the indices below `n` satisfy `f`.
/// How many of the first `n` slots a search has not entered.
pub open spec fn unentered(came: Seq<usize>, n: nat) -> nat {
    count_where(n, |i: nat| i < came.len() && came[i as int] == usize::MAX)
}

pub open spec fn count_where(n: nat, f: spec_fn(nat) -> bool) -> nat
    decreases n,
{
    if n == 0 {
        0
    } else {
        count_where((n - 1) as nat, f) + (if f((n - 1) as nat) { 1nat } else { 0nat })
    }
}

/// A search that has entered only its start leaves every other slot.
proof fn lemma_unentered_one(came: Seq<usize>, n: nat, start: int)
    requires
        came.len() == n,
        0 <= start < n,
        came[start] != usize::MAX,
        forall|i: int| 0 <= i < n && i != start ==> #[trigger] came[i] == usize::MAX,
    ensures
        unentered(came, n) == n - 1,
{
    lemma_unentered_upto(came, n, start, n);
}

proof fn lemma_unentered_upto(came: Seq<usize>, n: nat, start: int, k: nat)
    requires
        came.len() == n,
        0 <= start < n,
        k <= n,
        came[start] != usize::MAX,
        forall|i: int| 0 <= i < n && i != start ==> #[trigger] came[i] == usize::MAX,
    ensures
        count_where(k, |i: nat| i < came.len() && came[i as int] == usize::MAX) == k - (if start < k { 1int } else { 0int }),
    decreases k,
{
    if k > 0 {
        lemma_unentered_upto(came, n, start, (k - 1) as nat);
        if (k - 1) as int != start {
            assert(came[(k - 1) as int] == usize::MAX);
        }
    }
}

/// Entries of a marking not yet set.
pub open spec fn unseen(s: Seq<bool>) -> nat {
    count_where(s.len(), |i: nat| i < s.len() && !s[i as int])
}

/// No more indices satisfy a predicate than there are indices.
pub proof fn lemma_count_le(n: nat, f: spec_fn(nat) -> bool)
    ensures
        count_where(n, f) <= n,
    decreases n,
{
    if n > 0 {
        lemma_count_le((n - 1) as nat, f);
    }
}

/// Counting a predicate that implies another counts no more.
pub proof fn lemma_count_mono(n: nat, f: spec_fn(nat) -> bool, g: spec_fn(nat) -> bool)
    requires
        forall|i: nat| i < n && #[trigger] g(i) ==> f(i),
    ensures
        count_where(n, g) <= count_where(n, f),
    decreases n,
{
    if n > 0 {
        lemma_count_mono((n - 1) as nat, f, g);
    }
}

/// Two predicates that agree below `n` count the same.
pub proof fn lemma_count_eq(n: nat, f: spec_fn(nat) -> bool, g: spec_fn(nat) -> bool)
    requires
        forall|i: nat| i < n ==> #[trigger] g(i) == f(i),
    ensures
        count_where(n, g) == count_where(n, f),
    decreases n,
{
    if n > 0 {
        lemma_count_eq((n - 1) as nat, f, g);
    }
}

/// Dropping one index that `f` holds of, and keeping the rest, counts one
/// fewer.
pub proof fn lemma_count_drop(n: nat, f: spec_fn(nat) -> bool, g: spec_fn(nat) -> bool, k: nat)
    requires
        k < n,
        f(k),
        !g(k),
        forall|i: nat| i < n && i != k ==> #[trigger] g(i) == f(i),
    ensures
        count_where(n, g) + 1 == count_where(n, f),
    decreases n,
{
    if n - 1 == k {
        lemma_count_eq((n - 1) as nat, f, g);
    } else {
        lemma_count_drop((n - 1) as nat, f, g, k);
    }
}

/// Dropping at least one index `f` holds of, and adding none, counts fewer.
pub proof fn lemma_count_strict(n: nat, f: spec_fn(nat) -> bool, g: spec_fn(nat) -> bool, k: nat)
    requires
        k < n,
        f(k),
        !g(k),
        forall|i: nat| i < n && #[trigger] g(i) ==> f(i),
    ensures
        count_where(n, g) < count_where(n, f),
    decreases n,
{
    if n - 1 == k {
        lemma_count_mono((n - 1) as nat, f, g);
    } else {
        lemma_count_strict((n - 1) as nat, f, g, k);
    }
}

/// Live humans in an arena.
pub open spec fn npc_count(s: Seq<Option<actors::Actor>>) -> nat {
    count_where(s.len(), |i: nat| holds(s, i) && actors::is_npc(s[i as int]->0.kind))
}

/// Counting humans after a spawn.
pub proof fn lemma_npc_push(s: Seq<Option<actors::Actor>>, a: actors::Actor)
    ensures
        npc_count(s.push(Some(a))) == npc_count(s) + (if actors::is_npc(a.kind) { 1nat } else { 0nat }),
{
    let t = s.push(Some(a));
    let f = |i: nat| holds(s, i) && actors::is_npc(s[i as int]->0.kind);
    let g = |i: nat| holds(t, i) && actors::is_npc(t[i as int]->0.kind);
    assert forall|i: nat| i < s.len() implies #[trigger] g(i) == f(i) by {
        assert(t[i as int] == s[i as int]);
    }
    lemma_count_eq(s.len(), f, g);
    assert(t[s.len() as int] == Some(a));
}

/// Counting humans after a slot empties.
pub proof fn lemma_npc_clear(s: Seq<Option<actors::Actor>>, k: int)
    requires
        0 <= k < s.len(),
        s[k] is Some,
    ensures
        npc_count(s.update(k, None)) + (if actors::is_npc(s[k]->0.kind) { 1nat } else { 0nat }) == npc_count(s),
{
    let t = s.update(k, None);
    let f = |i: nat| holds(s, i) && actors::is_npc(s[i as int]->0.kind);
    let g = |i: nat| holds(t, i) && actors::is_npc(t[i as int]->0.kind);
    if actors::is_npc(s[k]->0.kind) {
        assert(f(k as nat));
        lemma_count_drop(s.len(), f, g, k as nat);
    } else {
        assert forall|i: nat| i < s.len() implies #[trigger] g(i) == f(i) by {}
        lemma_count_eq(s.len(), f, g);
    }
}

/// Arenas holding the same bodies hold the same humans.
pub proof fn lemma_npc_same_bodies(a: Seq<Option<actors::Actor>>, b: Seq<Option<actors::Actor>>)
    requires
        same_bodies(a, b),
    ensures
        npc_count(a) == npc_count(b),
{
    let f = |i: nat| holds(a, i) && actors::is_npc(a[i as int]->0.kind);
    let g = |i: nat| holds(b, i) && actors::is_npc(b[i as int]->0.kind);
    assert forall|i: nat| i < a.len() implies #[trigger] g(i) == f(i) by {
        assert(a[i as int] is Some <==> b[i as int] is Some);
    }
    lemma_count_eq(a.len(), f, g);
}

/// Whether some member of `group` is the handle with slot `i`.
pub open spec fn in_group(group: Seq<ActorId>, i: nat) -> bool {
    exists|k: int| 0 <= k < group.len() && (#[trigger] group[k])@ == i
}

/// Live humans of the arena that are not yet in `group`.
pub open spec fn free_npcs(s: Seq<Option<actors::Actor>>, group: Seq<ActorId>) -> nat {
    count_where(s.len(), |i: nat| holds(s, i) && actors::is_npc(s[i as int]->0.kind) && !in_group(group, i))
}

/// Whether `v` holds `x`.
fn contains_id(v: &Vec<ActorId>, x: ActorId) -> (b: bool)
    ensures
        b == in_group(v@, x@),
{
    let mut k: usize = 0;
    while k < v.len()
        invariant
            k <= v@.len(),
            forall|j: int| 0 <= j < k ==> (#[trigger] v@[j])@ != x@,
        decreases v@.len() - k,
    {
        if v[k] == x {
            proof {
                assert(v@[k as int]@ == x@);
            }
            return true;
        }
        proof {
            ActorId::lemma_view_injective(v@[k as int], x);
        }
        k = k + 1;
    }
    false
}

/// Which cells a search for somewhere to put something will accept.
#[derive(Clone, Copy, PartialEq, Eq, Structural, Debug)]
pub(crate) enum Legal {
    /// Nothing standing there.
    NoActor,
    /// No item lying there, and no organelle of yours standing there.
    Loot,
}

/// The indices only look at where actors stand and which cells can be
/// walked, so a map that differs in nothing else agrees with them too.
proof fn lemma_occupancy_same_ground(
    g1: Grid,
    g2: Grid,
    actors: Seq<Option<actors::Actor>>,
    actor_at: Seq<Option<ActorId>>,
    items: Seq<Option<Item>>,
    item_at: Seq<Option<ItemId>>,
)
    requires
        occupancy_agrees(g1, actors, actor_at, items, item_at),
        g2.spec_width() == g1.spec_width(),
        g2.spec_height() == g1.spec_height(),
        forall|c: Coord| #[trigger] g2.spec_cell(c).walkable == g1.spec_cell(c).walkable,
    ensures
        occupancy_agrees(g2, actors, actor_at, items, item_at),
{
    reveal(occupancy_agrees);
    assert forall|n: nat| #[trigger] holds(actors, n) implies {
        let at = actor_at[flat_index(g2.spec_width(), actors[n as int]->0.pos)];
        &&& g2.spec_in_bounds(actors[n as int]->0.pos)
        &&& at is Some
        &&& at->0@ == n
        &&& !g2.spec_cell(actors[n as int]->0.pos).walkable
    } by {
        assert(g2.spec_cell(actors[n as int]->0.pos).walkable == g1.spec_cell(actors[n as int]->0.pos).walkable);
    }
}

/// Changing one cell of the map that nobody stands on leaves the indices
/// agreeing with the stores.
proof fn lemma_occupancy_new_grid(
    g1: Grid,
    g2: Grid,
    c: Coord,
    actors: Seq<Option<actors::Actor>>,
    actor_at: Seq<Option<ActorId>>,
    items: Seq<Option<Item>>,
    item_at: Seq<Option<ItemId>>,
)
    requires
        g1.wf(),
        occupancy_agrees(g1, actors, actor_at, items, item_at),
        g1.same_but(&g2, c),
        actor_at.len() == g1.spec_width() * g1.spec_height(),
        g1.spec_in_bounds(c) ==> actor_at[flat_index(g1.spec_width(), c)] is None,
    ensures
        occupancy_agrees(g2, actors, actor_at, items, item_at),
{
    reveal(occupancy_agrees);
    g1.lemma_wf();
    assert forall|n: nat| #[trigger] holds(actors, n) implies {
        let at = actor_at[flat_index(g2.spec_width(), actors[n as int]->0.pos)];
        &&& g2.spec_in_bounds(actors[n as int]->0.pos)
        &&& at is Some
        &&& at->0@ == n
        &&& !g2.spec_cell(actors[n as int]->0.pos).walkable
    } by {
        let p = actors[n as int]->0.pos;
        if p == c {
            assert(actor_at[flat_index(g1.spec_width(), c)] is Some);
        }
        assert(g2.spec_cell(p) == g1.spec_cell(p));
    }
}

/// Which cells a route may pass through on its way to a target.
#[derive(Clone, Copy, PartialEq, Eq, Structural, Debug)]
pub enum Passable {
    /// Open floor only.
    Walkable,
    /// Open floor, or an unarmoured human standing in the way.
    IgnoringMilitia,
    /// Open floor, or your own body, but neither an extractor nor a corpse
    /// already beside the extractor standing at the given cell.
    Hauling(Coord),
    /// Only cells an organelle stands on: how maws and tentacles travel.
    Body,
}

/// The cell a flat index names, for a map `w` columns wide.
fn coord_from_index(w: i32, h: i32, i: usize) -> (c: Coord)
    requires
        0 <= w,
        0 <= h,
        w * h <= i32::MAX,
        i < w * h,
    ensures
        c == coord_of(w as int, i as int),
{
    proof {
        lemma_coord_of(w as int, h as int, i as int);
        reveal(coord_of);
        assert(w > 0) by (nonlinear_arith)
            requires
                0 <= i < w * h,
                w >= 0,
                h >= 0,
        ;
    }
    Coord::new((i as i32) % w, (i as i32) / w)
}

/// Every live actor of `a` that is not a human is still alive in `b`, as
/// the same kind.
pub open spec fn organelles_kept(a: Seq<Option<actors::Actor>>, b: Seq<Option<actors::Actor>>) -> bool {
    &&& a.len() <= b.len()
    &&& forall|j: int|
        0 <= j < a.len() && (#[trigger] a[j]) is Some && !actors::is_npc(a[j]->0.kind) ==> b[j] is Some
            && b[j]->0.kind == a[j]->0.kind && b[j]->0.pos == a[j]->0.pos
}

/// One human a terror core has lifted off the schedule, and the speed it had
/// before it was frightened.
#[derive(Clone, Copy, PartialEq, Eq, Structural, Debug)]
pub(crate) struct Terrified {
    /// The core holding it.
    pub core: ActorId,
    /// The human that is missing its turn.
    pub victim: ActorId,
    /// What to set its delay back to.
    pub delay: i32,
}

/// Calls `fastrand::Rng::with_seed`, which builds a generator whose whole
/// stream is fixed by the seed. Nothing about that stream is stated here.
#[verifier::external_body]
fn rng_with_seed(seed: u64) -> Rng {
    Rng::with_seed(seed)
}

/// `n` copies of `value`.
fn repeat<T: Copy>(value: T, n: usize) -> (r: Vec<T>)
    ensures
        r@.len() == n,
        forall|i: int| 0 <= i < n ==> #[trigger] r@[i] == value,
{
    let mut out: Vec<T> = Vec::new();
    while out.len() < n
        invariant
            out@.len() <= n,
            forall|i: int| 0 <= i < out@.len() ==> #[trigger] out@[i] == value,
        decreases n - out@.len(),
    {
        out.push(value);
    }
    out
}

/// The world.
pub struct Sim {
    seed: u64,
    rng: Rng,
    difficulty: Difficulty,
    rules: Rules,
    phase: Phase,
    mode: UiMode,
    grid: Grid,
    actors: ActorStore,
    items: ItemStore,
    /// One slot per cell: the actor standing there, if any.
    actor_at: Vec<Option<ActorId>>,
    /// One slot per cell: the item lying there, if any.
    item_at: Vec<Option<ItemId>>,
    /// The mass, in acquisition order. Nucleus cycling and the sidebar both
    /// depend on that order.
    player_mass: Vec<ActorId>,
    cities: Vec<ActorId>,
    /// Gates broken so far: what the next one is priced from.
    cities_destroyed: i32,
    schedule: Schedule,
    active: Option<ActorId>,
    player_turn: bool,
    messages: MessageLog,
    organelles: OrganelleLog,
    cues: Vec<Cue>,
    /// What happened this advance and where, in the order it happened.
    effects: Vec<Effect>,
    cursor: Option<Coord>,
    /// Every cell a hunter or scout is currently aiming at.
    reticles: Vec<Reticle>,
    /// Humans a terror core is currently holding off the schedule.
    terrified: Vec<Terrified>,
    /// Where the humans think you are, newest last.
    rumors: Vec<Rumor>,
    /// The middle of every chamber the cavern was carved with.
    junctions: Vec<Coord>,
    /// One entry per cell: steps of open floor to the nearest city doorway,
    /// or `i32::MAX` for rock and anywhere no doorway reaches.
    depth: Vec<i32>,
    /// Bumped by every world mutation, so the drag-path cache can tell
    /// whether it still describes the world it was computed from.
    version: u64,
    drag_cache: Option<player::SlimeTree>,
    /// Which way the frontend takes orders, for the lines that mention it.
    input_style: InputStyle,
    /// Whether the last run of the world was stopped by its step guard
    /// rather than by reaching a nucleus, the end of the run, or an empty
    /// clock.
    stalled: Ghost<bool>,
}

impl Sim {
    // -- the model ----------------------------------------------------------

    /// Map columns.
    pub closed spec fn width(&self) -> int {
        self.grid.spec_width()
    }

    /// Cells on the map.
    pub closed spec fn cells(&self) -> int {
        self.grid.spec_width() * self.grid.spec_height()
    }

    /// Whether a handle names a live actor.
    pub closed spec fn live(&self, id: ActorId) -> bool {
        id@ < self.actors@.len() && self.actors@[id@ as int] is Some
    }

    /// The live actor behind a handle.
    pub closed spec fn actor(&self, id: ActorId) -> actors::Actor {
        self.actors@[id@ as int]->0
    }

    /// Live humans on the map.
    pub closed spec fn npcs(&self) -> nat {
        npc_count(self.actors@)
    }

    /// What the player's own moves can still use up: two for every item on
    /// the floor and one for every crafting material in the mass.
    pub closed spec fn fuel_m(&self) -> nat {
        2 * actors::count_live(self.items@) + materials(self.actors@)
    }

    /// Gravity cores free to start a pull.
    pub closed spec fn fuel_f(&self) -> nat {
        free_cores(self.actors@)
    }

    /// The world has used up no more than `old` had, in the order: floor and
    /// materials first, then free gravity cores.
    pub closed spec fn fuel_le(&self, old: &Sim) -> bool {
        self.fuel_m() < old.fuel_m() || (self.fuel_m() == old.fuel_m() && self.fuel_f() <= old.fuel_f())
    }

    /// Whether a handle names an item still on the floor.
    pub closed spec fn has_item(&self, id: ItemId) -> bool {
        id@ < self.items@.len() && self.items@[id@ as int] is Some
    }

    /// The item behind a handle.
    pub closed spec fn item(&self, id: ItemId) -> Item {
        self.items@[id@ as int]->0
    }

    /// The actor indexed at `c`, if any; nothing off the map.
    pub closed spec fn occupant(&self, c: Coord) -> Option<ActorId> {
        if self.grid.spec_in_bounds(c) {
            self.actor_at@[flat_index(self.width(), c)]
        } else {
            None
        }
    }

    /// The item indexed at `c`, if any; nothing off the map.
    pub closed spec fn lying(&self, c: Coord) -> Option<ItemId> {
        if self.grid.spec_in_bounds(c) {
            self.item_at@[flat_index(self.width(), c)]
        } else {
            None
        }
    }

    /// The map.
    pub closed spec fn map(&self) -> Grid {
        self.grid
    }

    /// The actor arena.
    pub closed spec fn arena(&self) -> ActorStore {
        self.actors
    }

    /// The item arena.
    pub closed spec fn floor(&self) -> ItemStore {
        self.items
    }

    /// The turn queue.
    pub closed spec fn queue(&self) -> Schedule {
        self.schedule
    }

    /// The mass, in acquisition order.
    pub closed spec fn mass_spec(&self) -> Seq<ActorId> {
        self.player_mass@
    }

    /// The cues reported so far this advance.
    pub closed spec fn cues_spec(&self) -> Seq<Cue> {
        self.cues@
    }

    /// Every cell somebody is aiming at, with who is aiming.
    pub closed spec fn reticles_spec(&self) -> Seq<Reticle> {
        self.reticles@
    }

    /// The effects reported so far this advance.
    pub closed spec fn effects_spec(&self) -> Seq<Effect> {
        self.effects@
    }

    /// Nothing differs between the two but the news reported this advance:
    /// the cues and the effects.
    pub closed spec fn news_only(&self, other: &Sim) -> bool {
        *other == (Sim { cues: other.cues, effects: other.effects, ..*self })
    }

    /// Nothing differs between the two but how the frontend takes orders.
    pub closed spec fn style_only(&self, other: &Sim) -> bool {
        *other == (Sim { input_style: other.input_style, ..*self })
    }

    /// Nothing differs between the two but the actors.
    pub closed spec fn arena_only(&self, other: &Sim) -> bool {
        *other == (Sim { actors: other.actors, ..*self })
    }

    /// Nothing of the world but the humans' orders and intents, the news,
    /// the log, the rumors and the generator differs between the two: every
    /// body is where it was, the floor and the rock are as they were, and
    /// the run is in the same phase.
    pub closed spec fn unmoved(&self, other: &Sim) -> bool {
        &&& same_bodies(self.actors@, other.actors@)
        &&& other.items == self.items
        &&& other.grid == self.grid
        &&& other.phase == self.phase
    }

    /// Standing still keeps the map, so every walk over open floor, and
    /// every body where it was.
    pub proof fn lemma_unmoved_walks(a: &Sim, b: &Sim)
        requires
            a.unmoved(b),
        ensures
            a.map() == b.map(),
            a.cells() == b.cells(),
            forall|q: Seq<Coord>, from: Coord, c: Coord| #[trigger] a.trail(q, from, c, Passable::Walkable) == b.trail(
                q,
                from,
                c,
                Passable::Walkable,
            ),
            forall|x: ActorId| #[trigger] a.live(x) ==> b.live(x) && b.actor(x).pos == a.actor(x).pos,
    {
        assert forall|x: ActorId| #[trigger] a.live(x) implies b.live(x) && b.actor(x).pos == a.actor(x).pos by {
            assert(a.actors@[x@ as int] is Some);
        }
    }

    /// Standing still twice is standing still.
    pub(crate) proof fn lemma_unmoved_trans(a: &Sim, b: &Sim, c: &Sim)
        requires
            a.unmoved(b),
            b.unmoved(c),
        ensures
            a.unmoved(c),
    {
    }

    /// Nothing differs between the two but the state of the generator.
    pub closed spec fn chance_only(&self, other: &Sim) -> bool {
        *other == (Sim { rng: other.rng, ..*self })
    }

    /// The world is well formed: one index slot per cell, every store sound,
    /// the clock far enough from its limit that a turn can still be queued,
    /// and the indices agreeing with the stores.
    pub closed spec fn inv(&self) -> bool {
        &&& self.grid.wf()
        &&& self.actor_at@.len() == self.cells()
        &&& self.item_at@.len() == self.cells()
        &&& self.depth@.len() == self.cells()
        &&& self.actors.wf()
        &&& self.items.wf()
        &&& self.schedule.wf()
        &&& self.schedule.spec_time() + i32::MAX <= u64::MAX
        &&& self.organelles.wf()
        &&& (self.drag_cache matches Some(t) ==> player::tree_ok(t.nodes@, t.max_depth))
        &&& self.rules == rules_of(self.difficulty)
        &&& 0 <= self.cities_destroyed <= self.rules.num_cities
        &&& occupancy_agrees(self.grid, self.actors@, self.actor_at@, self.items@, self.item_at@)
        &&& (self.active matches Some(a) ==> self.live(a))
    }

    // -- construction and plain reads ----------------------------------------

    /// A sim sitting on the title screen, with an empty map of the size the
    /// difficulty calls for.
    pub fn new(seed: u64, difficulty: Difficulty) -> (sim: Self)
        ensures
            sim.inv(),
            sim.phase_spec() == Phase::Title,
            sim.mass_spec() == Seq::<ActorId>::empty(),
            sim.arena()@ == Seq::<Option<actors::Actor>>::empty(),
            sim.floor()@ == Seq::<Option<Item>>::empty(),
            sim.map().spec_width() == rules_of(difficulty).map_width,
            sim.map().spec_height() == rules_of(difficulty).map_height,
    {
        let rules = difficulty.rules();
        let grid = Grid::new(rules.map_width, rules.map_height);
        let cells = (rules.map_width * rules.map_height) as usize;
        let sim = Sim {
            seed,
            rng: rng_with_seed(seed),
            difficulty,
            rules,
            phase: Phase::Title,
            mode: UiMode::Messages,
            grid,
            actors: ActorStore::new(),
            items: ItemStore::new(),
            actor_at: repeat(None, cells),
            item_at: repeat(None, cells),
            player_mass: Vec::new(),
            cities: Vec::new(),
            cities_destroyed: 0,
            schedule: Schedule::new(),
            active: None,
            player_turn: false,
            messages: MessageLog::new(),
            organelles: OrganelleLog::new(),
            cues: Vec::new(),
            effects: Vec::new(),
            cursor: None,
            reticles: Vec::new(),
            terrified: Vec::new(),
            rumors: Vec::new(),
            junctions: Vec::new(),
            depth: repeat(i32::MAX, cells),
            version: 0,
            drag_cache: None,
            input_style: InputStyle::Keys,
            stalled: Ghost(false),
        };
        proof {
            reveal(occupancy_agrees);
        }
        sim
    }

    /// A twenty-by-twenty walled arena with nothing in it, already in play:
    /// a ring of rock around open, explored floor, for posing exact
    /// situations that map generation would never hand you.
    pub fn sandbox(seed: u64) -> (sim: Self)
        ensures
            sim.inv(),
            sim.phase_spec() == Phase::Playing,
            sim.arena()@ == Seq::<Option<actors::Actor>>::empty(),
            sim.floor()@ == Seq::<Option<Item>>::empty(),
            sim.map().spec_width() == 20,
            sim.map().spec_height() == 20,
            forall|c: Coord| #[trigger] sim.map().spec_in_bounds(c) ==> (sim.map().spec_cell(c).walkable <==> (1 <= c.x
                < 19 && 1 <= c.y < 19)),
    {
        let mut grid = Grid::new(20, 20);
        let mut y: i32 = 0;
        while y < 20
            invariant
                0 <= y <= 20,
                grid.wf(),
                grid.spec_width() == 20,
                grid.spec_height() == 20,
                forall|c: Coord| grid.spec_in_bounds(c) && c.y < y ==> (#[trigger] grid.spec_cell(c).walkable <==> (1
                    <= c.x < 19 && 1 <= c.y < 19)),
            decreases 20 - y,
        {
            let mut x: i32 = 0;
            while x < 20
                invariant
                    0 <= y < 20,
                    0 <= x <= 20,
                    grid.wf(),
                    grid.spec_width() == 20,
                    grid.spec_height() == 20,
                    forall|c: Coord| grid.spec_in_bounds(c) && (c.y < y || (c.y == y && c.x < x)) ==> (
                    #[trigger] grid.spec_cell(c).walkable <==> (1 <= c.x < 19 && 1 <= c.y < 19)),
                decreases 20 - x,
            {
                let solid = x == 0 || y == 0 || x == 19 || y == 19;
                let ghost before = grid;
                let here = Coord::new(x, y);
                grid.set_props(here, !solid, !solid, true);
                proof {
                    assert forall|c: Coord| grid.spec_in_bounds(c) && (c.y < y || (c.y == y && c.x < x + 1)) implies (
                    #[trigger] grid.spec_cell(c).walkable <==> (1 <= c.x < 19 && 1 <= c.y < 19)) by {
                        if c != here {
                            assert(grid.spec_cell(c) == before.spec_cell(c));
                        }
                    }
                }
                x = x + 1;
            }
            y = y + 1;
        }
        let mut sim = Sim::new(seed, Difficulty::Normal);
        sim.phase = Phase::Playing;
        sim.grid = grid;
        sim.actor_at = repeat(None, 400);
        sim.item_at = repeat(None, 400);
        sim.depth = repeat(0, 400);
        proof {
            reveal(occupancy_agrees);
            sim.grid.lemma_wf();
        }
        sim
    }

    /// Where the run is, as a specification value.
    pub closed spec fn phase_spec(&self) -> Phase {
        self.phase
    }

    /// Which panel is open, as a specification value.
    pub closed spec fn mode_spec(&self) -> UiMode {
        self.mode
    }

    /// The constants in force, as a specification value.
    pub closed spec fn rules_spec(&self) -> Rules {
        self.rules
    }

    /// Gates broken so far, as a specification value.
    pub closed spec fn destroyed_spec(&self) -> i32 {
        self.cities_destroyed
    }

    /// The seed this run was generated from.
    pub closed spec fn seed_spec(&self) -> u64 {
        self.seed
    }

    /// The difficulty in force.
    pub closed spec fn difficulty_spec(&self) -> Difficulty {
        self.difficulty
    }

    /// Whether the world is waiting on the player.
    pub closed spec fn turn_spec(&self) -> bool {
        self.player_turn
    }

    /// Whether the last run of the world hit its step guard.
    pub closed spec fn stalled_spec(&self) -> bool {
        self.stalled@
    }

    /// The message log.
    pub closed spec fn log_spec(&self) -> MessageLog {
        self.messages
    }

    /// Steps of open floor from each cell to the nearest gate doorway.
    pub closed spec fn depth_field(&self) -> Seq<i32> {
        self.depth@
    }

    /// Steps of open floor from `c` to the nearest gate doorway, or
    /// `i32::MAX` for rock, off the map, and anywhere no doorway reaches.
    pub closed spec fn depth_of(&self, c: Coord) -> i32 {
        if self.grid.spec_in_bounds(c) {
            self.depth@[flat_index(self.width(), c)]
        } else {
            i32::MAX
        }
    }

    /// The state of the run's generator.
    pub closed spec fn generator(&self) -> Rng {
        self.rng
    }

    /// The gates still standing.
    pub closed spec fn cities_spec(&self) -> Seq<ActorId> {
        self.cities@
    }

    /// The examine cursor.
    pub closed spec fn cursor_spec(&self) -> Option<Coord> {
        self.cursor
    }

    /// Tunnel mouths between caverns.
    pub closed spec fn junctions_spec(&self) -> Seq<Coord> {
        self.junctions@
    }

    /// Where the humans think you are.
    pub closed spec fn rumors_spec(&self) -> Seq<Rumor> {
        self.rumors@
    }

    /// The organelle browser's state.
    pub closed spec fn browser_spec(&self) -> OrganelleLog {
        self.organelles
    }

    /// How the frontend takes orders.
    pub closed spec fn style_spec(&self) -> InputStyle {
        self.input_style
    }

    /// Tell the sim what the player is holding, so the lines that name
    /// controls name the right ones.
    pub fn set_input_style(&mut self, style: InputStyle)
        requires
            old(self).inv(),
        ensures
            final(self).inv(),
            old(self).kept_setup(&*final(self)),
            final(self).style_spec() == style,
            old(self).style_only(&*final(self)),
    {
        self.input_style = style;
    }

    /// The seed this run was generated from.
    pub fn seed(&self) -> (r: u64)
        ensures
            r == self.seed_spec(),
    {
        self.seed
    }

    /// The difficulty in force.
    pub fn difficulty(&self) -> (r: Difficulty)
        ensures
            r == self.difficulty_spec(),
    {
        self.difficulty
    }

    /// The constants in force.
    pub fn rules(&self) -> (r: Rules)
        ensures
            r == self.rules_spec(),
    {
        self.rules
    }

    /// Where the run is.
    pub fn phase(&self) -> (p: Phase)
        ensures
            p == self.phase_spec(),
    {
        self.phase
    }

    /// Which panel is open.
    pub fn mode(&self) -> (m: UiMode)
        ensures
            m == self.mode_spec(),
    {
        self.mode
    }

    /// What happened during the last advance.
    pub fn cues(&self) -> (r: &[Cue])
        ensures
            r@ == self.cues_spec(),
    {
        self.cues.as_slice()
    }

    /// The same news with cells attached, in the order it happened.
    pub fn effects(&self) -> (r: &[Effect])
        ensures
            r@ == self.effects_spec(),
    {
        self.effects.as_slice()
    }

    /// Whether the world is waiting on the player.
    pub fn is_player_turn(&self) -> (r: bool)
        ensures
            r == self.turn_spec(),
    {
        self.player_turn
    }

    /// The current mass, which is also the score and what a city's armour
    /// is measured against.
    pub fn mass(&self) -> (n: usize)
        ensures
            n == self.mass_spec().len(),
    {
        self.player_mass.len()
    }

    /// The message log.
    pub fn messages(&self) -> (r: &MessageLog)
        ensures
            *r == self.log_spec(),
    {
        &self.messages
    }

    /// The map.
    pub fn grid(&self) -> (g: &Grid)
        ensures
            *g == self.map(),
    {
        &self.grid
    }

    /// The actor arena.
    pub fn actors(&self) -> (a: &ActorStore)
        ensures
            *a == self.arena(),
    {
        &self.actors
    }

    /// The item arena.
    pub fn items(&self) -> (i: &ItemStore)
        ensures
            *i == self.floor(),
    {
        &self.items
    }

    /// The mass, in acquisition order.
    pub fn player_mass(&self) -> (r: &[ActorId])
        ensures
            r@ == self.mass_spec(),
    {
        self.player_mass.as_slice()
    }

    /// Gates still standing.
    pub fn cities(&self) -> (r: &[ActorId])
        ensures
            r@ == self.cities_spec(),
    {
        self.cities.as_slice()
    }

    /// Mass needed to break the next gate: every gate standing is worth this
    /// much, and the price goes up by one step each time one falls.
    pub fn city_armor(&self) -> (a: i32)
        requires
            i32::MIN <= armor_for(self.rules_spec(), self.destroyed_spec() as int) <= i32::MAX,
            self.destroyed_spec() < i32::MAX,
        ensures
            a == armor_for(self.rules_spec(), self.destroyed_spec() as int),
    {
        self.rules.city_armor(self.cities_destroyed)
    }

    /// The nucleus under your control.
    pub fn active_nucleus(&self) -> (r: Option<ActorId>)
        ensures
            r == self.active_spec(),
    {
        self.active
    }

    /// The examine cursor, if examine mode is open.
    pub fn cursor(&self) -> (r: Option<Coord>)
        ensures
            r == self.cursor_spec(),
    {
        self.cursor
    }

    /// Every cell a hunter or scout is currently aiming at.
    pub fn reticles(&self) -> (r: &[Reticle])
        ensures
            r@ == self.reticles_spec(),
    {
        self.reticles.as_slice()
    }

    /// Whether somebody is aiming at this cell.
    pub fn reticle_at(&self, c: Coord) -> (b: bool)
        ensures
            b == exists|k: int| 0 <= k < self.reticles_spec().len() && (#[trigger] self.reticles_spec()[k]).pos == c,
    {
        let mut k: usize = 0;
        while k < self.reticles.len()
            invariant
                k <= self.reticles@.len(),
                forall|j: int| 0 <= j < k ==> (#[trigger] self.reticles@[j]).pos != c,
            decreases self.reticles@.len() - k,
        {
            if self.reticles[k].pos == c {
                proof {
                    assert(self.reticles_spec()[k as int].pos == c);
                }
                return true;
            }
            k = k + 1;
        }
        false
    }

    /// The middle of every chamber the cavern was carved with.
    pub fn junctions(&self) -> (r: &[Coord])
        ensures
            r@ == self.junctions_spec(),
    {
        self.junctions.as_slice()
    }

    /// Where the humans currently think you are.
    pub fn rumors(&self) -> (r: &[Rumor])
        ensures
            r@ == self.rumors_spec(),
    {
        self.rumors.as_slice()
    }

    /// The turn queue.
    pub fn schedule(&self) -> (s: &Schedule)
        ensures
            *s == self.queue(),
    {
        &self.schedule
    }

    /// Sidebar state.
    pub fn organelle_log(&self) -> (r: &OrganelleLog)
        ensures
            *r == self.browser_spec(),
    {
        &self.organelles
    }

    // -- world queries --------------------------------------------------------

    /// The index slot of an in-bounds cell.
    fn cell_index(&self, c: Coord) -> (r: Option<usize>)
        requires
            self.inv(),
        ensures
            self.grid.spec_in_bounds(c) <==> r is Some,
            r matches Some(i) ==> i as int == flat_index(self.width(), c) && 0 <= flat_index(self.width(), c)
                < self.cells(),
            self.cells() <= i32::MAX,
    {
        let w = self.grid.width();
        if self.grid.in_bounds(c) {
            proof {
                lemma_flat_index(self.width(), self.grid.spec_height(), c);
                reveal(flat_index);
            }
            Some((c.y * w + c.x) as usize)
        } else {
            None
        }
    }

    /// The actor standing at `c`, in constant time.
    pub fn actor_at(&self, c: Coord) -> (r: Option<ActorId>)
        requires
            self.inv(),
        ensures
            r == self.occupant(c),
    {
        match self.cell_index(c) {
            Some(i) => {
                self.actor_at[i]
            },
            None => None,
        }
    }

    /// The item lying at `c`, in constant time.
    pub fn item_at(&self, c: Coord) -> (r: Option<ItemId>)
        requires
            self.inv(),
        ensures
            r == self.lying(c),
    {
        match self.cell_index(c) {
            Some(i) => {
                self.item_at[i]
            },
            None => None,
        }
    }

    /// How far this cell is from the nearest city doorway, in steps of open
    /// floor; solid rock and anywhere unreachable answer `i32::MAX`.
    pub fn depth_at(&self, c: Coord) -> (d: i32)
        requires
            self.inv(),
        ensures
            d == self.depth_of(c),
            !self.map().spec_in_bounds(c) ==> d == i32::MAX,
    {
        match self.cell_index(c) {
            Some(i) => self.depth[i],
            None => i32::MAX,
        }
    }

    /// Solid rock: unwalkable and holding nothing. An occupied cell is not a
    /// wall; that is what lets shots pass through bodies.
    pub fn is_wall(&self, c: Coord) -> (b: bool)
        requires
            self.inv(),
        ensures
            b == (!self.map().spec_cell(c).walkable && self.occupant(c) is None && self.lying(c) is None),
    {
        !self.grid.walkable(c) && self.actor_at(c).is_none() && self.item_at(c).is_none()
    }

    /// Nothing standing and nothing lying here.
    pub fn is_empty_cell(&self, c: Coord) -> (b: bool)
        requires
            self.inv(),
        ensures
            b == (self.occupant(c) is None && self.lying(c) is None),
    {
        self.actor_at(c).is_none() && self.item_at(c).is_none()
    }

    /// Report that something happened, once per advance however often it
    /// did.
    pub(crate) fn cue(&mut self, cue: Cue)
        requires
            old(self).inv(),
        ensures
            final(self).inv(),
            old(self).kept_setup(&*final(self)),
            old(self).news_only(&*final(self)),
            final(self).effects_spec() == old(self).effects_spec(),
            final(self).cues_spec().contains(cue),
            old(self).cues_spec().contains(cue) ==> final(self).cues_spec() == old(self).cues_spec(),
            !old(self).cues_spec().contains(cue) ==> final(self).cues_spec() == old(self).cues_spec().push(cue),
    {
        let mut k: usize = 0;
        while k < self.cues.len()
            invariant
                old(self).kept_setup(&*self),
                k <= self.cues@.len(),
                forall|j: int| 0 <= j < k ==> self.cues@[j] != cue,
                *self == *old(self),
                old(self).inv(),
            decreases self.cues@.len() - k,
        {
            if self.cues[k] == cue {
                proof {
                    assert(self.cues@[k as int] == cue);
                }
                return ;
            }
            k = k + 1;
        }
        self.cues.push(cue);
        proof {
            assert(self.cues@.last() == cue);
        }
    }

    /// Report where something happened, every time it does, marked unseen
    /// when neither cell is in view. Past the runaway cap nothing more is
    /// recorded.
    pub(crate) fn effect(&mut self, kind: EffectKind, from: Coord, to: Coord)
        requires
            old(self).inv(),
        ensures
            final(self).inv(),
            old(self).kept_setup(&*final(self)),
            old(self).news_only(&*final(self)),
            final(self).cues_spec() == old(self).cues_spec(),
            old(self).effects_spec().len() < MAX_EFFECTS ==> final(self).effects_spec() == old(
                self,
            ).effects_spec().push(
                Effect {
                    kind,
                    from,
                    to,
                    in_sight: old(self).map().spec_cell(from).in_fov || old(self).map().spec_cell(to).in_fov,
                },
            ),
            old(self).effects_spec().len() >= MAX_EFFECTS ==> final(self).effects_spec() == old(
                self,
            ).effects_spec(),
    {
        if self.effects.len() < MAX_EFFECTS {
            let effect = Effect::new(kind, from, to);
            let seen = self.grid.in_fov(from) || self.grid.in_fov(to);
            self.effects.push(
                if seen {
                    effect
                } else {
                    effect.unseen()
                },
            );
        }
    }

    /// Report something that happened in one cell.
    pub(crate) fn effect_at(&mut self, kind: EffectKind, at: Coord)
        requires
            old(self).inv(),
        ensures
            final(self).inv(),
            old(self).kept_setup(&*final(self)),
            old(self).news_only(&*final(self)),
            final(self).cues_spec() == old(self).cues_spec(),
            old(self).effects_spec().len() < MAX_EFFECTS ==> final(self).effects_spec() == old(
                self,
            ).effects_spec().push(
                Effect { kind, from: at, to: at, in_sight: old(self).map().spec_cell(at).in_fov },
            ),
            old(self).effects_spec().len() >= MAX_EFFECTS ==> final(self).effects_spec() == old(
                self,
            ).effects_spec(),
    {
        self.effect(kind, at, at);
    }

    // -- world mutation -------------------------------------------------------

    /// Worlds with the same floor and the same kinds alive have the same fuel.
    proof fn lemma_fuel_same(&self, other: &Sim)
        requires
            same_kinds(self.actors@, other.actors@),
            self.items@ == other.items@,
        ensures
            self.fuel_m() == other.fuel_m(),
            self.fuel_f() == other.fuel_f(),
    {
        lemma_counts_same_kinds(self.actors@, other.actors@);
    }

    /// A live actor stands on the map, indexed at its cell.
    proof fn lemma_live_on_map(&self, id: ActorId)
        requires
            self.inv(),
            self.live(id),
        ensures
            self.grid.spec_in_bounds(self.actor(id).pos),
            self.occupant(self.actor(id).pos) == Some(id),
            !self.grid.spec_cell(self.actor(id).pos).walkable,
    {
        reveal(occupancy_agrees);
        assert(holds(self.actors@, id@));
        let at = self.actor_at@[flat_index(self.width(), self.actor(id).pos)];
        ActorId::lemma_view_injective(at->0, id);
    }

    /// Whoever is indexed at a cell is alive and stands there.
    proof fn lemma_occupant_live(&self, c: Coord)
        requires
            self.inv(),
        ensures
            self.occupant(c) matches Some(a) ==> self.live(a) && self.actor(a).pos == c,
    {
        reveal(occupancy_agrees);
        if self.grid.spec_in_bounds(c) {
            self.grid.lemma_wf();
            lemma_flat_index(self.width(), self.grid.spec_height(), c);
            let i = flat_index(self.width(), c);
            if self.actor_at@[i] is Some {
                assert(holds(self.actors@, self.actor_at@[i]->0@));
            }
        }
    }

    /// Whatever is indexed at a cell lies on the floor there.
    proof fn lemma_lying_present(&self, c: Coord)
        requires
            self.inv(),
        ensures
            self.lying(c) matches Some(i) ==> self.has_item(i) && self.item(i).pos == c,
    {
        reveal(occupancy_agrees);
        if self.grid.spec_in_bounds(c) {
            self.grid.lemma_wf();
            lemma_flat_index(self.width(), self.grid.spec_height(), c);
            let i = flat_index(self.width(), c);
            if self.item_at@[i] is Some {
                assert(holds(self.items@, self.item_at@[i]->0@));
            }
        }
    }

    /// An item on the floor lies on the map, indexed at its cell.
    proof fn lemma_item_on_map(&self, id: ItemId)
        requires
            self.inv(),
            self.has_item(id),
        ensures
            self.grid.spec_in_bounds(self.item(id).pos),
            self.lying(self.item(id).pos) == Some(id),
    {
        reveal(occupancy_agrees);
        assert(holds(self.items@, id@));
        let at = self.item_at@[flat_index(self.width(), self.item(id).pos)];
        ItemId::lemma_view_injective(at->0, id);
    }

    /// Move an actor, but only onto a walkable cell, which nothing can be
    /// standing on.
    pub(crate) fn set_actor_position(&mut self, id: ActorId, dest: Coord) -> (moved: bool)
        requires
            old(self).inv(),
        ensures
            final(self).inv(),
            old(self).kept_setup(&*final(self)),
            moved == (old(self).map().spec_cell(dest).walkable && old(self).live(id)),
            moved ==> final(self).arena()@ == old(self).arena()@.update(
                id@ as int,
                Some(actors::Actor { pos: dest, ..old(self).actor(id) }),
            ),
            !moved ==> *final(self) == *old(self),
            same_kinds(old(self).arena()@, final(self).arena()@),
            final(self).floor() == old(self).floor(),
            final(self).queue() == old(self).queue(),
            final(self).mass_spec() == old(self).mass_spec(),
            final(self).phase_spec() == old(self).phase_spec(),
    {
        proof {
            reveal(occupancy_agrees);
        }
        if !self.grid.walkable(dest) || !self.actors.contains(id) {
            return false;
        }
        let from = match self.actors.get(id) {
            Some(a) => a.pos,
            None => {
                return false;
            },
        };
        let fi = self.cell_index(from);
        let di = self.cell_index(dest);
        let ghost w = self.width();
        let ghost h = self.grid.spec_height();
        let ghost old_grid = self.grid;
        proof {
            self.grid.lemma_wf();
            self.grid.lemma_off_map(dest);
            let n = id@;
            assert(holds(self.actors@, n));
            lemma_flat_index(w, h, from);
            lemma_flat_index(w, h, dest);
        }
        self.effect(EffectKind::Flow, from, dest);
        let ghost o = *self;
        match fi {
            Some(i) => {
                self.actor_at.set(i, None);
            },
            None => {},
        }
        self.grid.set_walkable(from, true);
        match di {
            Some(i) => {
                self.actor_at.set(i, Some(id));
            },
            None => {},
        }
        self.grid.set_walkable(dest, false);
        match self.actors.get_mut(id) {
            Some(a) => {
                a.pos = dest;
            },
            None => {},
        }
        self.version = self.version.wrapping_add(1);
        proof {
            let fi = flat_index(w, from);
            let di = flat_index(w, dest);
            assert(fi != di);
            assert(self.grid.spec_width() == w);
            assert(self.grid.spec_height() == h);
            assert(self.actor_at@ == o.actor_at@.update(fi, None).update(di, Some(id)));
            // No actor stood on the walkable destination.
            assert(o.actor_at@[di] is None) by {
                if o.actor_at@[di] is Some {
                    let m = o.actor_at@[di]->0@;
                    lemma_coord_of(w, h, di);
                    assert(holds(o.actors@, m));
                }
            }
            assert forall|i: int|
                0 <= i < self.actor_at@.len() && (#[trigger] self.actor_at@[i]) is Some implies holds(
                    self.actors@,
                    self.actor_at@[i]->0@,
                ) && self.actors@[self.actor_at@[i]->0@ as int]->0.pos == coord_of(w, i) by {
                lemma_coord_of(w, h, i);
                if i == di {
                } else {
                    let m = o.actor_at@[i]->0@;
                    assert(holds(o.actors@, m));
                    if m == id@ {
                        assert(flat_index(w, from) == i);
                    }
                }
            }
            assert forall|n: nat| #[trigger] holds(self.actors@, n) implies {
                let at = self.actor_at@[flat_index(w, self.actors@[n as int]->0.pos)];
                &&& self.grid.spec_in_bounds(self.actors@[n as int]->0.pos)
                &&& at is Some
                &&& at->0@ == n
                &&& !self.grid.spec_cell(self.actors@[n as int]->0.pos).walkable
            } by {
                if n != id@ {
                    assert(holds(o.actors@, n));
                    let p = o.actors@[n as int]->0.pos;
                    lemma_flat_index(w, h, p);
                    assert(p != dest);
                    assert(p != from) by {
                        if p == from {
                            assert(o.actor_at@[fi]->0@ == id@);
                        }
                    }
                }
            }
        }
        true
    }

    /// Exchange two actors' cells. Walkability is untouched, because both
    /// cells stay occupied.
    pub(crate) fn swap_actors(&mut self, a: ActorId, b: ActorId)
        requires
            old(self).inv(),
        ensures
            final(self).inv(),
            old(self).kept_setup(&*final(self)),
            (a != b && old(self).live(a) && old(self).live(b)) ==> final(self).arena()@ == old(
                self,
            ).arena()@.update(a@ as int, Some(actors::Actor { pos: old(self).actor(b).pos, ..old(self).actor(a) })).update(
                b@ as int,
                Some(actors::Actor { pos: old(self).actor(a).pos, ..old(self).actor(b) }),
            ),
            !(a != b && old(self).live(a) && old(self).live(b)) ==> *final(self) == *old(self),
            same_kinds(old(self).arena()@, final(self).arena()@),
            final(self).map() == old(self).map(),
            final(self).floor() == old(self).floor(),
            final(self).queue() == old(self).queue(),
            final(self).mass_spec() == old(self).mass_spec(),
            final(self).phase_spec() == old(self).phase_spec(),
    {
        proof {
            reveal(occupancy_agrees);
        }
        if a == b || !self.actors.contains(a) || !self.actors.contains(b) {
            return ;
        }
        let pa = match self.actors.get(a) {
            Some(x) => x.pos,
            None => {
                return ;
            },
        };
        let pb = match self.actors.get(b) {
            Some(x) => x.pos,
            None => {
                return ;
            },
        };
        let ia = self.cell_index(pa);
        let ib = self.cell_index(pb);
        let ghost w = self.width();
        let ghost h = self.grid.spec_height();
        let ghost o = *self;
        proof {
            self.grid.lemma_wf();
            assert(holds(self.actors@, a@));
            assert(holds(self.actors@, b@));
            lemma_flat_index(w, h, pa);
            lemma_flat_index(w, h, pb);
            ActorId::lemma_view_injective(a, b);
            assert(pa != pb) by {
                if pa == pb {
                    assert(self.actor_at@[flat_index(w, pa)]->0@ == a@);
                }
            }
        }
        match ia {
            Some(i) => {
                self.actor_at.set(i, Some(b));
            },
            None => {},
        }
        match ib {
            Some(i) => {
                self.actor_at.set(i, Some(a));
            },
            None => {},
        }
        match self.actors.get_mut(a) {
            Some(x) => {
                x.pos = pb;
            },
            None => {},
        }
        match self.actors.get_mut(b) {
            Some(x) => {
                x.pos = pa;
            },
            None => {},
        }
        self.version = self.version.wrapping_add(1);
        proof {
            let fa = flat_index(w, pa);
            let fb = flat_index(w, pb);
            assert(fa != fb);
            assert forall|i: int|
                0 <= i < self.actor_at@.len() && (#[trigger] self.actor_at@[i]) is Some implies holds(
                    self.actors@,
                    self.actor_at@[i]->0@,
                ) && self.actors@[self.actor_at@[i]->0@ as int]->0.pos == coord_of(w, i) by {
                lemma_coord_of(w, h, i);
                if i != fa && i != fb {
                    let m = o.actor_at@[i]->0@;
                    assert(holds(o.actors@, m));
                    if m == a@ {
                        assert(flat_index(w, pa) == i);
                    }
                    if m == b@ {
                        assert(flat_index(w, pb) == i);
                    }
                }
            }
            assert forall|n: nat| #[trigger] holds(self.actors@, n) implies {
                let at = self.actor_at@[flat_index(w, self.actors@[n as int]->0.pos)];
                &&& self.grid.spec_in_bounds(self.actors@[n as int]->0.pos)
                &&& at is Some
                &&& at->0@ == n
                &&& !self.grid.spec_cell(self.actors@[n as int]->0.pos).walkable
            } by {
                if n != a@ && n != b@ {
                    assert(holds(o.actors@, n));
                    let p = o.actors@[n as int]->0.pos;
                    lemma_flat_index(w, h, p);
                    assert(p != pa) by {
                        if p == pa {
                            assert(o.actor_at@[fa]->0@ == a@);
                        }
                    }
                    assert(p != pb) by {
                        if p == pb {
                            assert(o.actor_at@[fb]->0@ == b@);
                        }
                    }
                }
            }
        }
    }

    /// Drop an item on an in-bounds cell that has none.
    pub fn add_item(&mut self, kind: ItemKind, pos: Coord) -> (r: Option<ItemId>)
        requires
            old(self).inv(),
        ensures
            final(self).inv(),
            old(self).kept_setup(&*final(self)),
            r.is_some() == (old(self).map().spec_in_bounds(pos) && old(self).lying(pos) is None),
            r matches Some(id) ==> id@ == old(self).floor()@.len() && final(self).floor()@ == old(
                self,
            ).floor()@.push(Some(Item { kind, pos })) && final(self).lying(pos) == Some(id),
            r is None ==> *final(self) == *old(self),
            final(self).arena() == old(self).arena(),
            final(self).map() == old(self).map(),
            final(self).queue() == old(self).queue(),
            final(self).mass_spec() == old(self).mass_spec(),
            final(self).phase_spec() == old(self).phase_spec(),
            final(self).cities_spec() == old(self).cities_spec(),
            final(self).depth_field() == old(self).depth_field(),
            forall|c: Coord| #[trigger] final(self).occupant(c) == old(self).occupant(c),
            forall|c: Coord| c != pos ==> #[trigger] final(self).lying(c) == old(self).lying(c),
            final(self).rules_spec() == old(self).rules_spec(),
    {
        proof {
            reveal(occupancy_agrees);
        }
        let i = match self.cell_index(pos) {
            Some(i) => i,
            None => {
                return None;
            },
        };
        if self.item_at[i].is_some() {
            return None;
        }
        let ghost w = self.width();
        let ghost h = self.grid.spec_height();
        let ghost o = *self;
        proof {
            self.grid.lemma_wf();
            lemma_flat_index(w, h, pos);
            actors::lemma_count_live_le(self.items@);
        }
        let id = self.items.spawn(Item { kind, pos });
        self.item_at.set(i, Some(id));
        self.version = self.version.wrapping_add(1);
        proof {
            assert forall|j: int|
                0 <= j < self.item_at@.len() && (#[trigger] self.item_at@[j]) is Some implies holds(
                    self.items@,
                    self.item_at@[j]->0@,
                ) && self.items@[self.item_at@[j]->0@ as int]->0.pos == coord_of(w, j) by {
                lemma_coord_of(w, h, j);
                if j != i {
                    assert(holds(o.items@, o.item_at@[j]->0@));
                }
            }
            assert forall|n: nat| #[trigger] holds(self.items@, n) implies {
                let at = self.item_at@[flat_index(w, self.items@[n as int]->0.pos)];
                &&& self.grid.spec_in_bounds(self.items@[n as int]->0.pos)
                &&& at is Some
                &&& at->0@ == n
            } by {
                if n != id@ {
                    assert(holds(o.items@, n));
                    let p = o.items@[n as int]->0.pos;
                    lemma_flat_index(w, h, p);
                    assert(p != pos);
                }
            }
            assert forall|c: Coord| c != pos implies #[trigger] self.lying(c) == o.lying(c) by {
                if self.grid.spec_in_bounds(c) {
                    lemma_flat_index(w, h, c);
                    assert(flat_index(w, c) != i);
                }
            }
        }
        Some(id)
    }

    /// Take an item off the map.
    pub(crate) fn remove_item(&mut self, id: ItemId) -> (r: Option<Item>)
        requires
            old(self).inv(),
        ensures
            final(self).inv(),
            old(self).kept_setup(&*final(self)),
            r.is_some() == old(self).has_item(id),
            r matches Some(item) ==> item == old(self).item(id) && final(self).floor()@ == old(self).floor()@.update(
                id@ as int,
                None,
            ) && final(self).lying(item.pos) is None,
            r is None ==> *final(self) == *old(self),
            final(self).arena() == old(self).arena(),
            final(self).map() == old(self).map(),
            final(self).queue() == old(self).queue(),
            final(self).mass_spec() == old(self).mass_spec(),
            final(self).phase_spec() == old(self).phase_spec(),
            forall|c: Coord| #[trigger] final(self).occupant(c) == old(self).occupant(c),
    {
        proof {
            reveal(occupancy_agrees);
        }
        let ghost w = self.width();
        let ghost h = self.grid.spec_height();
        let ghost o = *self;
        let pos = match self.items.get(id) {
            Some(item) => item.pos,
            None => {
                return None;
            },
        };
        let i = self.cell_index(pos);
        proof {
            self.grid.lemma_wf();
            assert(holds(self.items@, id@));
            lemma_flat_index(w, h, pos);
        }
        let taken = self.items.remove(id);
        match i {
            Some(i) => {
                self.item_at.set(i, None);
            },
            None => {},
        }
        self.version = self.version.wrapping_add(1);
        proof {
            let fi = flat_index(w, pos);
            assert forall|j: int|
                0 <= j < self.item_at@.len() && (#[trigger] self.item_at@[j]) is Some implies holds(
                    self.items@,
                    self.item_at@[j]->0@,
                ) && self.items@[self.item_at@[j]->0@ as int]->0.pos == coord_of(w, j) by {
                lemma_coord_of(w, h, j);
                let m = o.item_at@[j]->0@;
                assert(holds(o.items@, m));
                if m == id@ {
                    assert(flat_index(w, pos) == j);
                }
            }
            assert forall|n: nat| #[trigger] holds(self.items@, n) implies {
                let at = self.item_at@[flat_index(w, self.items@[n as int]->0.pos)];
                &&& self.grid.spec_in_bounds(self.items@[n as int]->0.pos)
                &&& at is Some
                &&& at->0@ == n
            } by {
                assert(holds(o.items@, n));
                let p = o.items@[n as int]->0.pos;
                lemma_flat_index(w, h, p);
                assert(p != pos) by {
                    if p == pos {
                        assert(o.item_at@[fi]->0@ == id@);
                    }
                }
            }
        }
        taken
    }

    /// Who holds whom in fright: each entry as the terror core and the
    /// human it holds, in the order the holds were taken.
    pub closed spec fn frightened(&self) -> Seq<(ActorId, ActorId)> {
        self.terrified@.map_values(|t: Terrified| (t.core, t.victim))
    }

    /// Put back on the schedule anything a departing terror core was
    /// holding, and forget a victim that has left the world.
    pub fn release_terrified(&mut self, gone: ActorId)
        requires
            old(self).inv(),
        ensures
            final(self).inv(),
            old(self).kept_setup(&*final(self)),
            same_bodies(old(self).arena()@, final(self).arena()@),
            final(self).floor() == old(self).floor(),
            final(self).map() == old(self).map(),
            final(self).mass_spec() == old(self).mass_spec(),
            final(self).phase_spec() == old(self).phase_spec(),
            final(self).queue().spec_time() == old(self).queue().spec_time(),
            final(self).destroyed_spec() == old(self).destroyed_spec(),
            final(self).rules_spec() == old(self).rules_spec(),
            forall|c: Coord| #[trigger] final(self).occupant(c) == old(self).occupant(c),
            forall|c: Coord| #[trigger] final(self).lying(c) == old(self).lying(c),
            final(self).frightened() == old(self).frightened().filter(
                |p: (ActorId, ActorId)| p.0 != gone && p.1 != gone,
            ),
    {
        let ghost f = |t: Terrified| (t.core, t.victim);
        let ghost pred = |p: (ActorId, ActorId)| p.0 != gone && p.1 != gone;
        let mut held: Vec<Terrified> = Vec::new();
        let mut kept: Vec<Terrified> = Vec::new();
        let mut k: usize = 0;
        while k < self.terrified.len()
            invariant
                old(self).kept_setup(&*self),
                k <= self.terrified@.len(),
                f == (|t: Terrified| (t.core, t.victim)),
                pred == (|p: (ActorId, ActorId)| p.0 != gone && p.1 != gone),
                kept@.map_values(f) == self.terrified@.take(k as int).map_values(f).filter(pred),
            decreases self.terrified@.len() - k,
        {
            let t = self.terrified[k];
            proof {
                assert(self.terrified@.take(k + 1).map_values(f) =~= self.terrified@.take(k as int).map_values(f).push(f(t)));
                self.terrified@.take(k as int).map_values(f).lemma_filter_push(f(t), pred);
            }
            if t.core == gone {
                held.push(t);
            }
            let ghost kb = kept@;
            if t.core != gone && t.victim != gone {
                kept.push(t);
                proof {
                    assert(kept@.map_values(f) =~= kb.map_values(f).push(f(t)));
                }
            }
            k = k + 1;
        }
        proof {
            assert(self.terrified@.take(k as int) =~= self.terrified@);
        }
        self.terrified = kept;
        let ghost after = self.terrified@;
        let ghost start = *self;
        let mut j: usize = 0;
        while j < held.len()
            invariant
                old(self).kept_setup(&*self),
                j <= held@.len(),
                self.inv(),
                same_bodies(start.actors@, self.actors@),
                self.items == start.items,
                self.grid == start.grid,
                self.actor_at == start.actor_at,
                self.item_at == start.item_at,
                self.player_mass == start.player_mass,
                self.phase == start.phase,
                self.cities_destroyed == start.cities_destroyed,
                self.rules == start.rules,
                self.schedule.spec_time() == start.schedule.spec_time(),
                self.terrified@ == after,
            decreases held@.len() - j,
        {
            let entry = held[j];
            let ghost before = self.actors@;
            let found = match self.actors.get_mut(entry.victim) {
                Some(a) => {
                    a.delay = entry.delay;
                    true
                },
                None => false,
            };
            proof {
                if found {
                    assert(same_bodies(before, self.actors@));
                }
                lemma_occupancy_same_bodies(
                    self.grid,
                    before,
                    self.actors@,
                    self.actor_at@,
                    self.items@,
                    self.item_at@,
                );
            }
            if found {
                self.schedule.add(entry.victim, entry.delay);
            }
            j = j + 1;
        }
    }

    /// Take an actor off the map. Its cell becomes walkable again, and every
    /// list that named it forgets it.
    pub(crate) fn remove_actor(&mut self, id: ActorId) -> (r: Option<actors::Actor>)
        requires
            old(self).inv(),
        ensures
            final(self).inv(),
            old(self).kept_setup(&*final(self)),
            r.is_some() == old(self).live(id),
            final(self).map().spec_width() == old(self).map().spec_width(),
            final(self).map().spec_height() == old(self).map().spec_height(),
            r matches Some(a) ==> old(self).map().spec_in_bounds(a.pos),
            r matches Some(a) ==> a == old(self).actor(id) && same_bodies(
                old(self).arena()@.update(id@ as int, None),
                final(self).arena()@,
            ) && final(self).occupant(a.pos) is None && final(self).mass_spec() == without(
                old(self).mass_spec(),
                id,
            ),
            r matches Some(a) ==> forall|c: Coord| c != a.pos ==> #[trigger] final(self).occupant(c) == old(self).occupant(c),
            r is None ==> *final(self) == *old(self),
            materials(final(self).arena()@) <= materials(old(self).arena()@),
            free_cores(final(self).arena()@) <= free_cores(old(self).arena()@),
            final(self).floor() == old(self).floor(),
            final(self).phase_spec() == old(self).phase_spec(),
            final(self).destroyed_spec() == old(self).destroyed_spec(),
            final(self).rules_spec() == old(self).rules_spec(),
            forall|c: Coord| #[trigger] final(self).lying(c) == old(self).lying(c),
    {
        proof {
            reveal(occupancy_agrees);
        }
        let pos = match self.actors.get(id) {
            Some(a) => a.pos,
            None => {
                return None;
            },
        };
        let i = self.cell_index(pos);
        let ghost w = self.width();
        let ghost h = self.grid.spec_height();
        let ghost o = *self;
        proof {
            self.grid.lemma_wf();
            assert(holds(self.actors@, id@));
            lemma_flat_index(w, h, pos);
        }
        let taken = self.actors.remove(id);
        proof {
            lemma_npc_clear(o.actors@, id@ as int);
        }
        match i {
            Some(i) => {
                self.actor_at.set(i, None);
            },
            None => {},
        }
        self.grid.set_walkable(pos, true);
        proof {
            let fi = flat_index(w, pos);
            assert forall|j: int|
                0 <= j < self.actor_at@.len() && (#[trigger] self.actor_at@[j]) is Some implies holds(
                    self.actors@,
                    self.actor_at@[j]->0@,
                ) && self.actors@[self.actor_at@[j]->0@ as int]->0.pos == coord_of(w, j) by {
                lemma_coord_of(w, h, j);
                let m = o.actor_at@[j]->0@;
                assert(holds(o.actors@, m));
                if m == id@ {
                    assert(flat_index(w, pos) == j);
                }
            }
            assert forall|n: nat| #[trigger] holds(self.actors@, n) implies {
                let at = self.actor_at@[flat_index(w, self.actors@[n as int]->0.pos)];
                &&& self.grid.spec_in_bounds(self.actors@[n as int]->0.pos)
                &&& at is Some
                &&& at->0@ == n
                &&& !self.grid.spec_cell(self.actors@[n as int]->0.pos).walkable
            } by {
                assert(holds(o.actors@, n));
                let p = o.actors@[n as int]->0.pos;
                lemma_flat_index(w, h, p);
                assert(p != pos) by {
                    if p == pos {
                        assert(o.actor_at@[fi]->0@ == id@);
                    }
                }
            }
        }
        remove_all(&mut self.player_mass, id);
        remove_all(&mut self.cities, id);
        self.schedule.remove(id);
        if self.active == Some(id) {
            self.active = None;
        }
        drop_marks(&mut self.reticles, id);
        let ghost mid = *self;
        proof {
            assert(self.actor_at@ == o.actor_at@.update(flat_index(w, pos), None));
            assert(self.actors@ == o.actors@.update(id@ as int, None));
            assert(self.occupant(pos) is None);
            assert forall|c: Coord| #[trigger] self.lying(c) == o.lying(c) by {}
            if let Some(a) = self.active {
                ActorId::lemma_view_injective(a, id);
            }
        }
        if self.terrified.len() > 0 {
            self.release_terrified(id);
        }
        let ghost after = *self;
        self.version = self.version.wrapping_add(1);
        proof {
            assert(same_bodies(mid.actors@, self.actors@));
            assert forall|c: Coord| #[trigger] self.lying(c) == o.lying(c) by {
                assert(after.lying(c) == mid.lying(c));
            }
            lemma_count_actors_clear(o.actors@, id@ as int, |a: actors::Actor| actors::is_crafting_material(a.kind));
            lemma_count_actors_clear(o.actors@, id@ as int, |a: actors::Actor| a.kind == Kind::GravityCore && !a.anchor);
            assert(same_kinds(o.actors@.update(id@ as int, None), self.actors@));
            assert forall|c: Coord| c != pos implies #[trigger] self.occupant(c) == o.occupant(c) by {
                assert(after.occupant(c) == mid.occupant(c));
                if mid.grid.spec_in_bounds(c) {
                    lemma_flat_index(w, h, c);
                    lemma_flat_index(w, h, pos);
                    assert(flat_index(w, c) != flat_index(w, pos));
                }
            }
            lemma_counts_same_kinds(o.actors@.update(id@ as int, None), self.actors@);
        }
        taken
    }

    /// Place a new actor on a free, in-bounds cell and wire it into every
    /// index: the cell, the mass if it is slimed, the cities if it is one,
    /// and the schedule. A new city is priced at the current armour.
    fn place_actor(&mut self, kind: Kind, pos: Coord) -> (id: ActorId)
        requires
            old(self).inv(),
            old(self).map().spec_in_bounds(pos),
            old(self).occupant(pos) is None,
        ensures
            final(self).inv(),
            old(self).kept_setup(&*final(self)),
            id@ == old(self).arena()@.len(),
            final(self).arena()@.len() == old(self).arena()@.len() + 1,
            final(self).arena()@.drop_last() == old(self).arena()@,
            final(self).live(id),
            final(self).actor(id).kind == kind,
            final(self).actor(id).pos == pos,
            !final(self).actor(id).anchor,
            final(self).occupant(pos) == Some(id),
            final(self).floor() == old(self).floor(),
            final(self).phase_spec() == old(self).phase_spec(),
            final(self).map().spec_width() == old(self).map().spec_width(),
            final(self).map().spec_height() == old(self).map().spec_height(),
            forall|c: Coord| #[trigger] final(self).lying(c) == old(self).lying(c),
            forall|c: Coord| c != pos ==> #[trigger] final(self).occupant(c) == old(self).occupant(c),
            final(self).cities_spec() == (if is_city(kind) {
                old(self).cities_spec().push(id)
            } else {
                old(self).cities_spec()
            }),
            forall|c: Coord| c != pos ==> #[trigger] final(self).map().spec_cell(c) == old(self).map().spec_cell(c),
            final(self).depth_field() == old(self).depth_field(),
            final(self).junctions_spec() == old(self).junctions_spec(),
            final(self).generator() == old(self).generator(),
            final(self).mass_spec() == (if actors::kind_slime(kind) > 0 {
                old(self).mass_spec().push(id)
            } else {
                old(self).mass_spec()
            }),
            final(self).rules_spec() == old(self).rules_spec(),
    {
        proof {
            reveal(occupancy_agrees);
        }
        let mut actor = actors::Actor::new(kind, pos);
        if is_city(kind) {
            proof {
                lemma_armor_fits(self.rules, self.cities_destroyed as int);
            }
            actor.armor = self.city_armor();
        }
        let slime = actor.slime;
        let delay = actor.delay;
        let i = self.cell_index(pos);
        let ghost w = self.width();
        let ghost h = self.grid.spec_height();
        let ghost o = *self;
        proof {
            self.grid.lemma_wf();
            lemma_flat_index(w, h, pos);
        }
        let id = self.actors.spawn(actor);
        match i {
            Some(i) => {
                self.actor_at.set(i, Some(id));
            },
            None => {},
        }
        self.grid.set_walkable(pos, false);
        proof {
            let fi = flat_index(w, pos);
            assert forall|j: int|
                0 <= j < self.actor_at@.len() && (#[trigger] self.actor_at@[j]) is Some implies holds(
                    self.actors@,
                    self.actor_at@[j]->0@,
                ) && self.actors@[self.actor_at@[j]->0@ as int]->0.pos == coord_of(w, j) by {
                lemma_coord_of(w, h, j);
                if j != fi {
                    assert(holds(o.actors@, o.actor_at@[j]->0@));
                }
            }
            assert forall|n: nat| #[trigger] holds(self.actors@, n) implies {
                let at = self.actor_at@[flat_index(w, self.actors@[n as int]->0.pos)];
                &&& self.grid.spec_in_bounds(self.actors@[n as int]->0.pos)
                &&& at is Some
                &&& at->0@ == n
                &&& !self.grid.spec_cell(self.actors@[n as int]->0.pos).walkable
            } by {
                if n != id@ {
                    assert(holds(o.actors@, n));
                    let p = o.actors@[n as int]->0.pos;
                    lemma_flat_index(w, h, p);
                    assert(p != pos) by {
                        if p == pos {
                            assert(o.actor_at@[fi] is Some);
                        }
                    }
                }
            }
            assert(self.actors@.drop_last() =~= o.actors@);
        }
        if slime > 0 {
            self.player_mass.push(id);
        }
        if is_city(kind) {
            self.cities.push(id);
        }
        self.schedule.add(id, delay);
        self.version = self.version.wrapping_add(1);
        proof {
            assert forall|c: Coord| c != pos implies #[trigger] self.occupant(c) == o.occupant(c) by {
                if self.grid.spec_in_bounds(c) {
                    lemma_flat_index(w, h, c);
                }
            }
            assert forall|c: Coord| #[trigger] self.lying(c) == o.lying(c) by {}
        }
        id
    }

    /// Place a new actor and wire it into every index.
    ///
    /// Adding an organelle next to a human runs that human's engulf check, so
    /// growing into a gap can capture whoever was standing in it.
    pub fn add_actor(&mut self, kind: Kind, pos: Coord) -> (id: ActorId)
        requires
            old(self).inv(),
            old(self).map().spec_in_bounds(pos),
            old(self).occupant(pos) is None,
        ensures
            final(self).inv(),
            old(self).kept_setup(&*final(self)),
            id@ == old(self).arena()@.len(),
            final(self).npcs() <= old(self).npcs() + (if actors::is_npc(kind) { 1nat } else { 0nat }),
            materials(final(self).arena()@) == materials(old(self).arena()@) + (if actors::is_crafting_material(kind) {
                1nat
            } else {
                0nat
            }),
            free_cores(final(self).arena()@) == free_cores(old(self).arena()@) + (if kind == Kind::GravityCore {
                1nat
            } else {
                0nat
            }),
            organelles_kept(old(self).arena()@, final(self).arena()@),
            final(self).live(id),
            final(self).actor(id).kind == kind,
            final(self).floor() == old(self).floor(),
            final(self).phase_spec() == old(self).phase_spec(),
            final(self).map().spec_width() == old(self).map().spec_width(),
            final(self).map().spec_height() == old(self).map().spec_height(),
            forall|c: Coord| #[trigger] final(self).lying(c) == old(self).lying(c),
            (!actors::is_organelle(kind) || old(self).npcs() == 0) ==> final(self).arena()@.drop_last() == old(self).arena()@,
            (!actors::is_organelle(kind) || old(self).npcs() == 0) ==> final(self).actor(id).pos == pos,
            (!actors::is_organelle(kind) || old(self).npcs() == 0) ==> final(self).occupant(pos) == Some(id),
            (!actors::is_organelle(kind) || old(self).npcs() == 0) ==> forall|c: Coord|
                c != pos ==> #[trigger] final(self).occupant(c) == old(self).occupant(c),
            (!actors::is_organelle(kind) || old(self).npcs() == 0) ==> final(self).cities_spec() == (if is_city(kind) {
                old(self).cities_spec().push(id)
            } else {
                old(self).cities_spec()
            }),
            (!actors::is_organelle(kind) || old(self).npcs() == 0) ==> forall|c: Coord|
                c != pos ==> #[trigger] final(self).map().spec_cell(c) == old(self).map().spec_cell(c),
            (!actors::is_organelle(kind) || old(self).npcs() == 0) ==> final(self).depth_field() == old(self).depth_field(),
            (!actors::is_organelle(kind) || old(self).npcs() == 0) ==> final(self).junctions_spec() == old(self).junctions_spec(),
            (!actors::is_organelle(kind) || old(self).npcs() == 0) ==> final(self).generator() == old(self).generator(),
            (!actors::is_organelle(kind) || old(self).npcs() == 0) ==> final(self).rules_spec() == old(self).rules_spec(),
            (!actors::is_organelle(kind) || old(self).npcs() == 0) ==> final(self).mass_spec() == (if actors::kind_slime(kind) > 0 {
                old(self).mass_spec().push(id)
            } else {
                old(self).mass_spec()
            }),
        decreases old(self).npcs(), 2nat,
    {
        let ghost o = *self;
        let id = self.place_actor(kind, pos);
        proof {
            lemma_npc_push(o.actors@, self.actors@.last()->0);
            assert(self.actors@ == o.actors@.push(Some(self.actors@.last()->0)));
            lemma_count_actors_push(o.actors@, self.actors@.last()->0, |a: actors::Actor| actors::is_crafting_material(a.kind));
            lemma_count_actors_push(o.actors@, self.actors@.last()->0, |a: actors::Actor| a.kind == Kind::GravityCore && !a.anchor);
        }
        let ghost placed = *self;
        proof {
            assert(organelles_kept(o.actors@, placed.actors@)) by {
                assert forall|j: int| 0 <= j < o.actors@.len() && (#[trigger] o.actors@[j]) is Some && !actors::is_npc(o.actors@[j]->0.kind)
                    implies placed.actors@[j] is Some && placed.actors@[j]->0.kind == o.actors@[j]->0.kind by {
                    assert(placed.actors@.drop_last()[j] == placed.actors@[j]);
                }
            }
        }
        if actors::is_organelle(kind) {
            let neighbours = self.grid.adjacent(pos);
            let mut k: usize = 0;
            while k < neighbours.len()
                invariant
                    old(self).kept_setup(&*self),
                    k <= neighbours@.len(),
                    self.inv(),
                    self.npcs() <= o.npcs(),
                    o.npcs() == old(self).npcs(),
                    materials(self.actors@) == materials(placed.actors@),
                    free_cores(self.actors@) == free_cores(placed.actors@),
                    organelles_kept(placed.actors@, self.actors@),
                    self.items == o.items,
                    self.phase == o.phase,
                    self.grid.spec_width() == o.grid.spec_width(),
                    self.grid.spec_height() == o.grid.spec_height(),
                    forall|c: Coord| #[trigger] self.lying(c) == o.lying(c),
                    o.npcs() == 0 ==> *self == placed,
                decreases neighbours@.len() - k,
            {
                let c = neighbours[k];
                match self.actor_at(c) {
                    Some(other) => {
                        let npc = match self.actors.get(other) {
                            Some(a) => actors::is_npc(a.kind),
                            None => false,
                        };
                        if npc {
                            proof {
                                if o.npcs() == 0 {
                                    lemma_npc_clear(self.actors@, other@ as int);
                                    assert(false);
                                }
                            }
                            self.engulf(other);
                        }
                    },
                    None => {},
                }
                k = k + 1;
            }
        }
        id
    }

    /// Whether `d`, a cell beside a member of a clump, keeps the clump in:
    /// it cannot be walked, no gate stands on it, and any human on it is in
    /// the clump `g` too.
    pub open spec fn holds_in(&self, d: Coord, g: Seq<ActorId>) -> bool {
        &&& !self.map().spec_cell(d).walkable
        &&& !(self.occupant(d) is Some && self.live(self.occupant(d)->0) && is_city(self.actor(self.occupant(d)->0).kind))
        &&& (self.occupant(d) is Some && self.live(self.occupant(d)->0) && actors::is_npc(
            self.actor(self.occupant(d)->0).kind,
        ) ==> in_group(g, self.occupant(d)->0@))
    }

    /// A live actor of the clump `g` with nowhere to go: every cell beside
    /// it on the map keeps it in.
    pub open spec fn shut_in(&self, id: ActorId, g: Seq<ActorId>) -> bool {
        &&& self.live(id)
        &&& forall|d: Coord|
            self.map().spec_in_bounds(d) && #[trigger] taxi_spec(d, self.actor(id).pos) == 1 ==> self.holds_in(d, g)
    }

    /// A clump that stays shut in stays shut in as it grows.
    proof fn lemma_shut_in_grows(&self, id: ActorId, g: Seq<ActorId>, g2: Seq<ActorId>)
        requires
            self.shut_in(id, g),
            g.len() <= g2.len(),
            g2.subrange(0, g.len() as int) == g,
        ensures
            self.shut_in(id, g2),
    {
        assert forall|d: Coord|
            self.map().spec_in_bounds(d) && #[trigger] taxi_spec(d, self.actor(id).pos) == 1 implies self.holds_in(d, g2) by {
            assert(self.holds_in(d, g));
            let x = self.occupant(d)->0;
            if self.occupant(d) is Some && self.live(x) && actors::is_npc(self.actor(x).kind) {
                let k = choose|k: int| 0 <= k < g.len() && (#[trigger] g[k])@ == x@;
                assert(g2.subrange(0, g.len() as int)[k] == g2[k]);
            }
        }
    }

    /// Capture a human that has been sealed in, along with everybody sealed
    /// in with it. Returns whether anybody was captured.
    pub fn engulf(&mut self, npc: ActorId) -> (captured: bool)
        requires
            old(self).inv(),
        ensures
            final(self).inv(),
            old(self).kept_setup(&*final(self)),
            !captured ==> *final(self) == *old(self),
            !old(self).live(npc) ==> !captured,
            captured ==> exists|g: Seq<ActorId>|
                g.len() > 0 && g[0] == npc && forall|i: int| 0 <= i < g.len() ==> #[trigger] old(self).shut_in(g[i], g),
            final(self).npcs() <= old(self).npcs(),
            materials(final(self).arena()@) == materials(old(self).arena()@),
            free_cores(final(self).arena()@) == free_cores(old(self).arena()@),
            organelles_kept(old(self).arena()@, final(self).arena()@),
            final(self).floor() == old(self).floor(),
            final(self).phase_spec() == old(self).phase_spec(),
            final(self).map().spec_width() == old(self).map().spec_width(),
            final(self).map().spec_height() == old(self).map().spec_height(),
            forall|c: Coord| #[trigger] final(self).lying(c) == old(self).lying(c),
        decreases old(self).npcs(), 1nat,
    {
        let mut group: Vec<ActorId> = Vec::new();
        if !self.can_engulf(npc, &mut group) {
            return false;
        }
        let ghost o = *self;
        let ghost gg = group@;
        proof {
            assert(gg.len() > 0 && gg[0] == npc);
            assert(forall|i: int| 0 <= i < gg.len() ==> #[trigger] o.shut_in(gg[i], gg));
        }
        let mut k: usize = 0;
        while k < group.len()
            invariant
                old(self).kept_setup(&*self),
                k <= group@.len(),
                self.inv(),
                self.npcs() <= o.npcs(),
                o.npcs() == old(self).npcs(),
                materials(self.actors@) == materials(o.actors@),
                free_cores(self.actors@) == free_cores(o.actors@),
                organelles_kept(o.actors@, self.actors@),
                self.floor() == o.floor(),
                self.phase_spec() == o.phase_spec(),
                self.map().spec_width() == o.map().spec_width(),
                self.map().spec_height() == o.map().spec_height(),
                forall|c: Coord| #[trigger] self.lying(c) == o.lying(c),
            decreases group@.len() - k,
        {
            let id = group[k];
            let name = match self.actors.get(id) {
                Some(a) => Some(a.name),
                None => None,
            };
            match name {
                Some(name) => {
                    let line = join_text(&["The ", name, " is engulfed!"]);
                    let ghost b = *self;
                    self.messages.add(line.as_str());
                    let ghost m = *self;
                    self.on_eaten_actor(id);
                    proof {
                        assert forall|c: Coord| #[trigger] self.lying(c) == o.lying(c) by {
                            assert(m.lying(c) == b.lying(c));
                            assert(b.lying(c) == o.lying(c));
                        }
                    }
                },
                None => {},
            }
            k = k + 1;
        }
        let ghost before = *self;
        self.cue(Cue::Engulf);
        proof {
            assert forall|c: Coord| #[trigger] self.lying(c) == o.lying(c) by {
                assert(before.lying(c) == o.lying(c));
            }
            assert(o == *old(self));
        }
        true
    }

    /// A human becomes its dissolving form and joins the mass.
    fn on_eaten_actor(&mut self, id: ActorId)
        requires
            old(self).inv(),
        ensures
            final(self).inv(),
            old(self).kept_setup(&*final(self)),
            final(self).npcs() <= old(self).npcs(),
            materials(final(self).arena()@) == materials(old(self).arena()@),
            free_cores(final(self).arena()@) == free_cores(old(self).arena()@),
            organelles_kept(old(self).arena()@, final(self).arena()@),
            final(self).floor() == old(self).floor(),
            final(self).phase_spec() == old(self).phase_spec(),
            final(self).map().spec_width() == old(self).map().spec_width(),
            final(self).map().spec_height() == old(self).map().spec_height(),
            forall|c: Coord| #[trigger] final(self).lying(c) == old(self).lying(c),
        decreases old(self).npcs(), 0nat,
    {
        let (kind, pos) = match self.actors.get(id) {
            Some(a) => (a.kind, a.pos),
            None => {
                return ;
            },
        };
        let next = match kind.becomes_on_eaten() {
            Some(n) => n,
            None => {
                return ;
            },
        };
        let ghost o = *self;
        self.remove_actor(id);
        proof {
            lemma_npc_clear(o.arena()@, id@ as int);
            lemma_npc_same_bodies(o.arena()@.update(id@ as int, None), self.arena()@);
            assert(actors::is_npc(kind));
            assert(!actors::is_npc(next));
            lemma_count_actors_clear(o.actors@, id@ as int, |a: actors::Actor| actors::is_crafting_material(a.kind));
            lemma_count_actors_clear(o.actors@, id@ as int, |a: actors::Actor| a.kind == Kind::GravityCore && !a.anchor);
            lemma_counts_same_kinds(o.actors@.update(id@ as int, None), self.actors@);
            assert(organelles_kept(o.actors@, self.actors@)) by {
                assert forall|j: int| 0 <= j < o.actors@.len() && (#[trigger] o.actors@[j]) is Some && !actors::is_npc(o.actors@[j]->0.kind)
                    implies self.actors@[j] is Some && self.actors@[j]->0.kind == o.actors@[j]->0.kind
                    && self.actors@[j]->0.pos == o.actors@[j]->0.pos by {
                    assert(j != id@ as int);
                    assert(o.actors@.update(id@ as int, None)[j] == o.actors@[j]);
                }
            }
        }
        self.add_actor(next, pos);
    }

    /// Whether a human, and everything contiguous with it, has nowhere to go.
    ///
    /// Walls seal. Your own organelles seal, including dissolving humans,
    /// which are organelles rather than humans. A city next to any member of
    /// the group breaks the seal for the whole group: cities will not help
    /// you trap their own people.
    fn can_engulf(&self, npc: ActorId, group: &mut Vec<ActorId>) -> (sealed: bool)
        requires
            self.inv(),
        ensures
            final(group)@.len() > old(group)@.len(),
            final(group)@.subrange(0, old(group)@.len() as int) == old(group)@,
            final(group)@[old(group)@.len() as int] == npc,
            !self.live(npc) ==> !sealed,
            sealed ==> forall|i: int|
                old(group)@.len() <= i < final(group)@.len() ==> #[trigger] self.shut_in(final(group)@[i], final(group)@),
        decreases
            free_npcs(self.arena()@, old(group)@),
            (if self.live(npc) && actors::is_npc(self.actor(npc).kind) && !in_group(old(group)@, npc@) {
                0nat
            } else {
                1nat
            }),
    {
        let ghost g0 = group@;
        group.push(npc);
        proof {
            assert(group@.subrange(0, g0.len() as int) =~= g0);
        }
        let pos = match self.actors.get(npc) {
            Some(a) => a.pos,
            None => {
                return false;
            },
        };
        let neighbours = self.grid.adjacent(pos);
        proof {
            self.lemma_live_on_map(npc);
            self.grid.lemma_adjacent_spec(pos);
        }
        let mut k: usize = 0;
        while k < neighbours.len()
            invariant
                k <= neighbours@.len(),
                self.inv(),
                group@ == g0.push(npc),
                group@.subrange(0, g0.len() as int) == g0,
                g0 == old(group)@,
                neighbours@ == self.map().adjacent_spec(pos, false),
                forall|j: int| 0 <= j < k ==> !self.map().spec_cell(#[trigger] neighbours@[j]).walkable,
            decreases neighbours@.len() - k,
        {
            if self.grid.walkable(neighbours[k]) {
                return false;
            }
            k = k + 1;
        }
        let mut k: usize = 0;
        while k < neighbours.len()
            invariant
                k <= neighbours@.len(),
                self.inv(),
                group@ == g0.push(npc),
                group@.subrange(0, g0.len() as int) == g0,
                g0 == old(group)@,
                neighbours@ == self.map().adjacent_spec(pos, false),
                forall|j: int| 0 <= j < neighbours@.len() ==> !self.map().spec_cell(#[trigger] neighbours@[j]).walkable,
                forall|j: int|
                    0 <= j < k ==> !(self.occupant(#[trigger] neighbours@[j]) is Some && self.live(
                        self.occupant(neighbours@[j])->0,
                    ) && is_city(self.actor(self.occupant(neighbours@[j])->0).kind)),
            decreases neighbours@.len() - k,
        {
            match self.actor_at(neighbours[k]) {
                Some(a) => match self.actors.get(a) {
                    Some(x) => {
                        if actors::is_city(x.kind) {
                            return false;
                        }
                    },
                    None => {},
                },
                None => {},
            }
            k = k + 1;
        }
        let mut has_escape = false;
        let mut k: usize = 0;
        while k < neighbours.len()
            invariant
                k <= neighbours@.len(),
                self.inv(),
                self.live(npc),
                pos == self.actor(npc).pos,
                group@.len() > g0.len(),
                group@.subrange(0, g0.len() as int) == g0,
                group@[g0.len() as int] == npc,
                g0 == old(group)@,
                neighbours@ == self.map().adjacent_spec(pos, false),
                forall|j: int| 0 <= j < neighbours@.len() ==> !self.map().spec_cell(#[trigger] neighbours@[j]).walkable,
                forall|j: int|
                    0 <= j < neighbours@.len() ==> !(self.occupant(#[trigger] neighbours@[j]) is Some && self.live(
                        self.occupant(neighbours@[j])->0,
                    ) && is_city(self.actor(self.occupant(neighbours@[j])->0).kind)),
                !has_escape ==> forall|i: int|
                    g0.len() < i < group@.len() ==> #[trigger] self.shut_in(group@[i], group@),
                !has_escape ==> forall|j: int| 0 <= j < k ==> self.holds_in(#[trigger] neighbours@[j], group@),
            decreases neighbours@.len() - k,
        {
            let ghost gk = group@;
            match self.actor_at(neighbours[k]) {
                Some(other) => {
                    let is_npc = match self.actors.get(other) {
                        Some(x) => actors::is_npc(x.kind),
                        None => false,
                    };
                    if is_npc && !contains_id(group, other) {
                        let ghost before = group@;
                        proof {
                            self.lemma_free_npcs_drop(g0, before, npc, other);
                        }
                        proof {
                            let q0: nat = if self.live(npc) && actors::is_npc(self.actor(npc).kind) && !in_group(
                                g0,
                                npc@,
                            ) {
                                0nat
                            } else {
                                1nat
                            };
                            assert(self.live(other) && actors::is_npc(self.actor(other).kind) && !in_group(
                                group@,
                                other@,
                            ));
                            assert(free_npcs(self.arena()@, group@) < free_npcs(self.arena()@, g0) || (free_npcs(
                                self.arena()@,
                                group@,
                            ) == free_npcs(self.arena()@, g0) && q0 == 1));
                        }
                        let sub = self.can_engulf(other, group);
                        if !sub {
                            has_escape = true;
                        }
                        proof {
                            assert(group@.subrange(0, g0.len() as int) =~= before.subrange(0, g0.len() as int));
                            assert(group@[g0.len() as int] == group@.subrange(0, before.len() as int)[g0.len() as int]);
                            if !has_escape {
                                assert(group@[before.len() as int] == other);
                                assert forall|i: int| g0.len() < i < group@.len() implies #[trigger] self.shut_in(
                                    group@[i],
                                    group@,
                                ) by {
                                    if i < before.len() {
                                        assert(group@[i] == group@.subrange(0, before.len() as int)[i]);
                                        self.lemma_shut_in_grows(before[i], before, group@);
                                    }
                                }
                                assert forall|j: int| 0 <= j < k + 1 implies self.holds_in(
                                    #[trigger] neighbours@[j],
                                    group@,
                                ) by {
                                    if j < k {
                                        assert(self.holds_in(neighbours@[j], before));
                                        let x = self.occupant(neighbours@[j])->0;
                                        if self.occupant(neighbours@[j]) is Some && self.live(x)
                                            && actors::is_npc(self.actor(x).kind) {
                                            let q = choose|q: int| 0 <= q < before.len() && (#[trigger] before[q])@ == x@;
                                            assert(group@[q] == group@.subrange(0, before.len() as int)[q]);
                                        }
                                    } else {
                                        assert(group@[before.len() as int]@ == other@);
                                    }
                                }
                            }
                        }
                    }
                },
                None => {},
            }
            proof {
                if !has_escape && group@ == gk {
                    assert forall|j: int| 0 <= j < k + 1 implies self.holds_in(#[trigger] neighbours@[j], group@) by {
                        if j == k {
                            self.lemma_occupant_live(neighbours@[j]);
                        }
                    }
                }
            }
            k = k + 1;
        }
        proof {
            if !has_escape {
                assert(self.shut_in(npc, group@)) by {
                    assert forall|d: Coord| self.map().spec_in_bounds(d) && #[trigger] taxi_spec(d, self.actor(npc).pos)
                        == 1 implies self.holds_in(d, group@) by {
                        assert(taxi_spec(pos, d) == 1);
                        assert(neighbours@.contains(d));
                        let j = choose|j: int| 0 <= j < neighbours@.len() && neighbours@[j] == d;
                        assert(self.holds_in(neighbours@[j], group@));
                    }
                }
                assert forall|i: int| g0.len() <= i < group@.len() implies #[trigger] self.shut_in(group@[i], group@) by {
                    if i == g0.len() {
                    }
                }
            }
        }
        !has_escape
    }

    /// Growing the group past `npc` and then adding `other` leaves fewer
    /// humans outside it than there were before `npc` joined.
    proof fn lemma_free_npcs_drop(&self, g0: Seq<ActorId>, now: Seq<ActorId>, npc: ActorId, other: ActorId)
        requires
            now.len() > g0.len(),
            now.subrange(0, g0.len() as int) == g0,
            now[g0.len() as int] == npc,
            self.live(other),
            actors::is_npc(self.actor(other).kind),
            !in_group(now, other@),
        ensures
            free_npcs(self.arena()@, now) <= free_npcs(self.arena()@, g0),
            (self.live(npc) && actors::is_npc(self.actor(npc).kind) && !in_group(g0, npc@)) ==> free_npcs(
                self.arena()@,
                now,
            ) < free_npcs(self.arena()@, g0),
            free_npcs(self.arena()@, now.push(other)) < free_npcs(self.arena()@, now),
    {
        let s = self.actors@;
        let f0 = |i: nat| holds(s, i) && actors::is_npc(s[i as int]->0.kind) && !in_group(g0, i);
        let f1 = |i: nat| holds(s, i) && actors::is_npc(s[i as int]->0.kind) && !in_group(now, i);
        let f2 = |i: nat| holds(s, i) && actors::is_npc(s[i as int]->0.kind) && !in_group(now.push(other), i);
        assert forall|i: nat| i < s.len() && #[trigger] f1(i) implies f0(i) by {
            if in_group(g0, i) {
                let k = choose|k: int| 0 <= k < g0.len() && (#[trigger] g0[k])@ == i;
                assert(now[k] == g0[k]);
            }
        }
        lemma_count_mono(s.len(), f0, f1);
        if self.live(npc) && actors::is_npc(self.actor(npc).kind) && !in_group(g0, npc@) {
            assert(now[g0.len() as int]@ == npc@);
            assert(f0(npc@));
            assert(!f1(npc@));
            lemma_count_strict(s.len(), f0, f1, npc@);
        }
        assert forall|i: nat| i < s.len() && #[trigger] f2(i) implies f1(i) by {
            if in_group(now, i) {
                let k = choose|k: int| 0 <= k < now.len() && (#[trigger] now[k])@ == i;
                assert(now.push(other)[k] == now[k]);
            }
        }
        assert(now.push(other)[now.len() as int] == other);
        assert(f1(other@));
        assert(!f2(other@));
        lemma_count_strict(s.len(), f1, f2, other@);
    }

    // -- searches and chance ------------------------------------------------------

    /// Pick one of a list uniformly, or nothing from an empty list. Draws
    /// are made over `i32` indices, so a list longer than `i32::MAX` (which
    /// the game never builds) yields nothing either.
    pub(crate) fn pick<T: Copy>(&mut self, from: &[T]) -> (r: Option<T>)
        requires
            old(self).inv(),
        ensures
            final(self).inv(),
            old(self).kept_setup(&*final(self)),
            r is None <==> (from@.len() == 0 || from@.len() > i32::MAX),
            r matches Some(x) ==> from@.contains(x),
            old(self).chance_only(&*final(self)),
    {
        if from.len() > 2147483647usize {
            return None;
        }
        match rand_index(&mut self.rng, from.len()) {
            Some(i) => {
                proof {
                    assert(from@[i as int] == from[i as int]);
                }
                Some(from[i])
            },
            None => None,
        }
    }

    /// Whether a search for somewhere to drop something accepts `c`.
    pub(crate) closed spec fn drop_ok(&self, legal: Legal, c: Coord) -> bool {
        let wall = !self.grid.spec_cell(c).walkable && self.occupant(c) is None && self.lying(c) is None;
        let city = self.occupant(c) matches Some(a) && self.live(a) && self.actor(a).kind == Kind::City;
        let fits = match legal {
            Legal::NoActor => self.occupant(c) is None,
            Legal::Loot => self.lying(c) is None && (self.occupant(c) matches Some(a) ==> !self.live(a)
                || self.actor(a).slime == 0),
        };
        !wall && !city && fits
    }

    /// The executable form of [`Sim::drop_ok`].
    fn drop_ok_at(&self, legal: Legal, c: Coord) -> (b: bool)
        requires
            self.inv(),
        ensures
            b == self.drop_ok(legal, c),
    {
        if self.is_wall(c) {
            return false;
        }
        let occupant = self.actor_at(c);
        let city = match occupant {
            Some(a) => match self.actors.get(a) {
                Some(x) => x.kind == Kind::City,
                None => false,
            },
            None => false,
        };
        if city {
            return false;
        }
        match legal {
            Legal::NoActor => occupant.is_none(),
            Legal::Loot => {
                self.item_at(c).is_none() && match occupant {
                    Some(a) => match self.actors.get(a) {
                        Some(x) => x.slime == 0,
                        None => true,
                    },
                    None => true,
                }
            },
        }
    }

    /// The next ring of a spread over the map: every cell beside the ring
    /// that is not solid rock and was not seen yet, marked seen as it is
    /// taken.
    fn expand_ring(&self, ring: &Vec<Coord>, seen: &mut Vec<bool>) -> (next: Vec<Coord>)
        requires
            self.inv(),
            old(seen)@.len() == self.cells(),
        ensures
            final(seen)@.len() == self.cells(),
            unseen(final(seen)@) + next@.len() <= unseen(old(seen)@),
            next@.len() <= self.cells(),
            forall|k: int| 0 <= k < next@.len() ==> self.map().spec_in_bounds(#[trigger] next@[k]),
            forall|k: int| 0 <= k < next@.len() ==> self.ring_step(ring@, old(seen)@, #[trigger] next@[k]),
            forall|c: Coord| #[trigger] self.ring_step(ring@, old(seen)@, c) ==> next@.contains(c),
            forall|c: Coord|
                self.map().spec_in_bounds(c) ==> #[trigger] final(seen)@[flat_index(self.width(), c)] == (old(
                    seen,
                )@[flat_index(self.width(), c)] || next@.contains(c)),
    {
        let ghost cells = self.cells();
        let ghost unseen0 = unseen(seen@);
        proof {
            lemma_count_le(seen@.len(), |i: nat| i < seen@.len() && !seen@[i as int]);
        }
        let ghost seen0 = seen@;
        let ghost w = self.width();
        let mut next: Vec<Coord> = Vec::new();
        let mut k: usize = 0;
        while k < ring.len()
            invariant
                self.inv(),
                k <= ring@.len(),
                seen@.len() == cells,
                cells == self.cells(),
                w == self.width(),
                seen0.len() == cells,
                unseen0 <= cells,
                unseen(seen@) + next@.len() <= unseen0,
                forall|m: int| 0 <= m < next@.len() ==> self.map().spec_in_bounds(#[trigger] next@[m]),
                forall|m: int| 0 <= m < next@.len() ==> self.ring_step(ring@, seen0, #[trigger] next@[m]),
                forall|c: Coord|
                    self.map().spec_in_bounds(c) ==> #[trigger] seen@[flat_index(w, c)] == (seen0[flat_index(w, c)]
                        || next@.contains(c)),
                forall|c: Coord|
                    #[trigger] self.ring_step(ring@, seen0, c) && (exists|m: int|
                        0 <= m < k && taxi_spec(#[trigger] ring@[m], c) == 1) ==> next@.contains(c),
            decreases ring@.len() - k,
        {
            let around = self.grid.adjacent(ring[k]);
            proof {
                self.grid.lemma_adjacent_spec(ring@[k as int]);
            }
            let mut j: usize = 0;
            while j < around.len()
                invariant
                    self.inv(),
                    j <= around@.len(),
                    k < ring@.len(),
                    around@ == self.grid.adjacent_spec(ring@[k as int], false),
                    forall|n: Coord|
                        self.grid.spec_in_bounds(n) && taxi_spec(ring@[k as int], n) == 1 ==> #[trigger] around@.contains(n),
                    forall|q: int|
                        0 <= q < around@.len() ==> self.grid.spec_in_bounds(#[trigger] around@[q]) && taxi_spec(
                            ring@[k as int],
                            around@[q],
                        ) == 1,
                    seen@.len() == cells,
                    cells == self.cells(),
                    w == self.width(),
                    seen0.len() == cells,
                    unseen0 <= cells,
                    unseen(seen@) + next@.len() <= unseen0,
                    forall|m: int| 0 <= m < next@.len() ==> self.map().spec_in_bounds(#[trigger] next@[m]),
                    forall|m: int| 0 <= m < next@.len() ==> self.ring_step(ring@, seen0, #[trigger] next@[m]),
                    forall|c: Coord|
                        self.map().spec_in_bounds(c) ==> #[trigger] seen@[flat_index(w, c)] == (seen0[flat_index(w, c)]
                            || next@.contains(c)),
                    forall|c: Coord|
                        #[trigger] self.ring_step(ring@, seen0, c) && (exists|m: int|
                            0 <= m < k && taxi_spec(#[trigger] ring@[m], c) == 1) ==> next@.contains(c),
                    forall|q: int|
                        0 <= q < j && #[trigger] self.ring_step(ring@, seen0, around@[q]) ==> next@.contains(around@[q]),
                decreases around@.len() - j,
            {
                let n = around[j];
                proof {
                    assert(self.grid.spec_in_bounds(around@[j as int]));
                    assert(taxi_spec(ring@[k as int], n) == 1);
                }
                match self.cell_index(n) {
                    Some(i) => {
                        if !seen[i] && !self.is_wall(n) {
                            let ghost before = seen@;
                            let ghost nb = next@;
                            seen.set(i, true);
                            proof {
                                let f = |x: nat| x < before.len() && !before[x as int];
                                let g = |x: nat| x < seen@.len() && !seen@[x as int];
                                assert(f(i as nat));
                                assert(!g(i as nat));
                                assert forall|x: nat| x < cells && x != i implies #[trigger] g(x) == f(x) by {}
                                lemma_count_drop(cells as nat, f, g, i as nat);
                            }
                            next.push(n);
                            proof {
                                assert(next@[next@.len() - 1] == n);
                                assert(next@.contains(n));
                                assert(!seen0[flat_index(w, n)]) by {
                                    assert(before[flat_index(w, n)] == (seen0[flat_index(w, n)] || nb.contains(n)));
                                }
                                assert(self.ring_step(ring@, seen0, n)) by {
                                    assert(taxi_spec(ring@[k as int], n) == 1);
                                }
                                assert forall|m: int| 0 <= m < next@.len() implies self.ring_step(
                                    ring@,
                                    seen0,
                                    #[trigger] next@[m],
                                ) by {
                                    if m < nb.len() {
                                        assert(next@[m] == nb[m]);
                                    }
                                }
                                assert forall|c: Coord|
                                    self.map().spec_in_bounds(c) implies #[trigger] seen@[flat_index(w, c)] == (
                                    seen0[flat_index(w, c)] || next@.contains(c)) by {
                                    lemma_flat_index(self.grid.spec_width(), self.grid.spec_height(), c);
                                    lemma_flat_index(self.grid.spec_width(), self.grid.spec_height(), n);
                                    if c != n {
                                        assert(flat_index(w, c) != flat_index(w, n));
                                        assert(next@.contains(c) == nb.contains(c)) by {
                                            if next@.contains(c) {
                                                let m = choose|m: int| 0 <= m < next@.len() && next@[m] == c;
                                                assert(nb[m] == c);
                                            }
                                            if nb.contains(c) {
                                                let m = choose|m: int| 0 <= m < nb.len() && nb[m] == c;
                                                assert(next@[m] == c);
                                            }
                                        }
                                    }
                                }
                                assert forall|c: Coord| nb.contains(c) implies next@.contains(c) by {
                                    let m = choose|m: int| 0 <= m < nb.len() && nb[m] == c;
                                    assert(next@[m] == c);
                                }
                            }
                        }
                    },
                    None => {},
                }
                proof {
                    if self.ring_step(ring@, seen0, n) {
                        lemma_flat_index(self.grid.spec_width(), self.grid.spec_height(), n);
                        assert(next@.contains(n));
                    }
                }
                j = j + 1;
            }
            proof {
                assert forall|c: Coord|
                    #[trigger] self.ring_step(ring@, seen0, c) && (exists|m: int|
                        0 <= m < k + 1 && taxi_spec(#[trigger] ring@[m], c) == 1) implies next@.contains(c) by {
                    if taxi_spec(ring@[k as int], c) == 1 && !exists|m: int| 0 <= m < k && taxi_spec(#[trigger] ring@[m], c) == 1 {
                        assert(around@.contains(c));
                        let q = choose|q: int| 0 <= q < around@.len() && around@[q] == c;
                        assert(self.ring_step(ring@, seen0, around@[q]));
                    }
                }
            }
            k = k + 1;
        }
        proof {
            assert forall|c: Coord| #[trigger] self.ring_step(ring@, seen0, c) implies next@.contains(c) by {
                let m = choose|m: int| 0 <= m < ring@.len() && taxi_spec(#[trigger] ring@[m], c) == 1;
                assert(taxi_spec(ring@[m], c) == 1);
            }
        }
        next
    }

    /// Whether `c` is solid rock: not walkable, with nothing standing or
    /// lying on it.
    pub closed spec fn solid_rock(&self, c: Coord) -> bool {
        !self.grid.spec_cell(c).walkable && self.occupant(c) is None && self.lying(c) is None
    }

    /// Whether a ring search reaches `c` in its next step from `ring`: an
    /// unseen cell on the map, not solid, beside some cell of the ring.
    pub closed spec fn ring_step(&self, ring: Seq<Coord>, seen: Seq<bool>, c: Coord) -> bool {
        &&& self.grid.spec_in_bounds(c)
        &&& !self.solid_rock(c)
        &&& !seen[flat_index(self.width(), c)]
        &&& exists|m: int| 0 <= m < ring.len() && taxi_spec(#[trigger] ring[m], c) == 1
    }

    /// Ring-by-ring search outward from `from` for somewhere to put
    /// something. The search spreads only through cells that are not solid
    /// rock, and returns the whole first ring holding at least one cell the
    /// search accepts; cities never count.
    fn nearest_drops(&self, from: Coord, legal: Legal) -> (r: Vec<Coord>)
        requires
            self.inv(),
        ensures
            forall|k: int| 0 <= k < r@.len() ==> self.drop_ok(legal, #[trigger] r@[k]),
            r@.len() <= i32::MAX,
            self.drop_ok(legal, from) ==> r@ == seq![from],
    {
        let w = self.grid.width();
        let h = self.grid.height();
        let cells = (w * h) as usize;
        let mut seen: Vec<bool> = repeat(false, cells);
        match self.cell_index(from) {
            Some(i) => {
                seen.set(i, true);
            },
            None => {},
        }
        let mut ring: Vec<Coord> = Vec::new();
        ring.push(from);
        let ghost mut first = true;
        loop
            invariant
                self.inv(),
                seen@.len() == cells,
                cells == self.cells(),
                cells <= i32::MAX,
                1 <= ring@.len() <= i32::MAX,
                first ==> ring@ == seq![from],
                !first ==> !self.drop_ok(legal, from),
            decreases unseen(seen@),
        {
            let mut found: Vec<Coord> = Vec::new();
            let mut k: usize = 0;
            while k < ring.len()
                invariant
                    self.inv(),
                    k <= ring@.len(),
                    found@.len() <= k,
                    forall|j: int| 0 <= j < found@.len() ==> self.drop_ok(legal, #[trigger] found@[j]),
                    first ==> ring@ == seq![from],
                    first && self.drop_ok(legal, from) && k >= 1 ==> found@ == seq![from],
                decreases ring@.len() - k,
            {
                let c = ring[k];
                if self.drop_ok_at(legal, c) {
                    found.push(c);
                }
                k = k + 1;
            }
            proof {
                if first && self.drop_ok(legal, from) {
                    assert(found@ =~= seq![from]);
                }
            }
            if found.len() > 0 {
                return found;
            }
            proof {
                first = false;
            }
            let next = self.expand_ring(&ring, &mut seen);
            if next.len() == 0 {
                return Vec::new();
            }
            ring = next;
        }
    }

    /// Nearest cells with nothing standing on them.
    fn nearest_no_actor(&self, from: Coord) -> (r: Vec<Coord>)
        requires
            self.inv(),
        ensures
            forall|k: int| 0 <= k < r@.len() ==> self.drop_ok(Legal::NoActor, #[trigger] r@[k]),
            r@.len() <= i32::MAX,
            self.drop_ok(Legal::NoActor, from) ==> r@ == seq![from],
    {
        self.nearest_drops(from, Legal::NoActor)
    }

    /// Nearest cells with no item, and no organelle of yours standing there.
    fn nearest_loot_drops(&self, from: Coord) -> (r: Vec<Coord>)
        requires
            self.inv(),
        ensures
            forall|k: int| 0 <= k < r@.len() ==> self.drop_ok(Legal::Loot, #[trigger] r@[k]),
            r@.len() <= i32::MAX,
            self.drop_ok(Legal::Loot, from) ==> r@ == seq![from],
    {
        self.nearest_drops(from, Legal::Loot)
    }

    // -- death and loot ---------------------------------------------------------

    /// Add a line to the message log.
    fn say(&mut self, line: &str)
        requires
            old(self).inv(),
        ensures
            final(self).inv(),
            old(self).kept_setup(&*final(self)),
            *final(self) == (Sim { messages: final(self).messages, ..*old(self) }),
            final(self).messages@ == log::keep_recent(old(self).messages@ + log::wrap_spec(line@, log::WRAP_WIDTH as nat)),
    {
        self.messages.add(line);
    }

    /// Drop an item as near to `from` as there is room for; with no room it
    /// is crushed, and the log says so.
    pub(crate) fn become_item(&mut self, kind: ItemKind, from: Coord)
        requires
            old(self).inv(),
        ensures
            final(self).inv(),
            old(self).kept_setup(&*final(self)),
            final(self).arena() == old(self).arena(),
            final(self).phase_spec() == old(self).phase_spec(),
            final(self).mass_spec() == old(self).mass_spec(),
            forall|c: Coord| #[trigger] final(self).occupant(c) == old(self).occupant(c),
            (exists|c: Coord|
                old(self).drop_ok(Legal::Loot, c) && #[trigger] final(self).floor()@ == old(self).floor()@.push(
                    Some(Item { kind, pos: c }),
                )) || (final(self).floor() == old(self).floor() && final(self).log_spec()@ == log::keep_recent(
                old(self).log_spec()@ + log::wrap_spec(
                    "The "@ + actors::item_name(kind) + " had nowhere to drop and was crushed!"@,
                    log::WRAP_WIDTH as nat,
                ),
            )),
    {
        let drops = self.nearest_loot_drops(from);
        let ghost o = *self;
        match self.pick(drops.as_slice()) {
            Some(cell) => {
                proof {
                    let z = choose|z: int| 0 <= z < drops@.len() && drops@[z] == cell;
                    assert(o.drop_ok(Legal::Loot, drops@[z]));
                    o.grid.lemma_off_map(cell);
                }
                self.add_item(kind, cell);
            },
            None => {
                let name = kind.name();
                let parts: [&str; 3] = ["The ", name, " had nowhere to drop and was crushed!"];
                let line = join_text(&parts);
                proof {
                    assert(parts@.map_values(|p: &str| p@) =~= seq!["The "@, name@, " had nowhere to drop and was crushed!"@]);
                    lemma_flatten3("The "@, name@, " had nowhere to drop and was crushed!"@);
                }
                self.say(line.as_str());
            },
        }
    }

    /// Kill a human outright: it drops its loot on the floor rather than
    /// joining you. A caravan's cargo is a coin flip.
    pub fn kill_npc(&mut self, id: ActorId)
        requires
            old(self).inv(),
        ensures
            final(self).inv(),
            old(self).kept_setup(&*final(self)),
            old(self).live(id) ==> !final(self).live(id),
            !old(self).live(id) ==> *final(self) == *old(self),
            final(self).phase_spec() == old(self).phase_spec(),
            old(self).live(id) ==> same_bodies(old(self).arena()@.update(id@ as int, None), final(self).arena()@),
    {
        let (kind, pos) = match self.actors.get(id) {
            Some(a) => (a.kind, a.pos),
            None => {
                return ;
            },
        };
        let dropped = self.pick(kind.drops_on_die());
        let ghost before = self.actors@;
        self.remove_actor(id);
        proof {
            assert(before.update(id@ as int, None)[id@ as int] is None);
            assert(!self.live(id));
        }
        match dropped {
            Some(item) => {
                self.become_item(item, pos);
            },
            None => {},
        }
    }

    /// Whether a nucleus is still somewhere in the mass.
    spec fn nucleus_alive(&self) -> bool {
        exists|k: int|
            0 <= k < self.player_mass@.len() && self.live(#[trigger] self.player_mass@[k]) && is_nucleus_family(
                self.actor(self.player_mass@[k]).kind,
            )
    }

    /// End the run if the last nucleus is gone.
    pub fn handle_game_over(&mut self)
        requires
            old(self).inv(),
        ensures
            final(self).inv(),
            old(self).kept_setup(&*final(self)),
            old(self).alive_spec() ==> *final(self) == *old(self),
            !old(self).alive_spec() ==> final(self).phase_spec() == (Phase::GameOver { won: false })
                && final(self).queue().spec_entries().len() == 0,
            final(self).arena() == old(self).arena(),
            final(self).floor() == old(self).floor(),
            forall|c: Coord| #[trigger] final(self).occupant(c) == old(self).occupant(c),
    {
        let mut k: usize = 0;
        while k < self.player_mass.len()
            invariant
                old(self).kept_setup(&*self),
                k <= self.player_mass@.len(),
                *self == *old(self),
                old(self).inv(),
                forall|j: int|
                    0 <= j < k ==> !(self.live(#[trigger] self.player_mass@[j]) && is_nucleus_family(
                        self.actor(self.player_mass@[j]).kind,
                    )),
            decreases self.player_mass@.len() - k,
        {
            let id = self.player_mass[k];
            match self.actors.get(id) {
                Some(a) => {
                    if is_nucleus_family(a.kind) {
                        proof {
                            assert(self.live(self.player_mass@[k as int]));
                        }
                        return ;
                    }
                },
                None => {},
            }
            k = k + 1;
        }
        let score = decimal_text(self.player_mass.len() as u64);
        let line = join_text(&["You lose. Final Score: ", score.as_str(), "."]);
        self.say(line.as_str());
        self.say("Press ESC to quit. Press R to play again.");
        self.schedule.clear();
        self.phase = Phase::GameOver { won: false };
        self.player_turn = true;
        self.active = None;
        self.cue(Cue::Lose);
    }

    /// Whether a nucleus is still somewhere in the mass, as the run's end
    /// is decided.
    pub closed spec fn alive_spec(&self) -> bool {
        self.nucleus_alive()
    }

    /// Kill an organelle by melee: it drops only its first component.
    /// Attacking a dissolving human instead rescues it, putting the live
    /// human back on its feet.
    pub fn destroy_organelle(&mut self, id: ActorId)
        requires
            old(self).inv(),
        ensures
            final(self).inv(),
            old(self).kept_setup(&*final(self)),
            !old(self).live(id) ==> *final(self) == *old(self),
            old(self).live(id) ==> !final(self).live(id),
            old(self).live(id) ==> (actors::kind_rescues_to(old(self).actor(id).kind) matches Some(k) ==> (
                final(self).occupant(old(self).actor(id).pos) matches Some(x) && final(self).live(x)
                    && final(self).actor(x).kind == k) && final(self).floor() == old(self).floor()),
            old(self).live(id) && actors::kind_rescues_to(old(self).actor(id).kind) is None ==> final(self).occupant(
                old(self).actor(id).pos,
            ) is None,
            old(self).live(id) && actors::kind_rescues_to(old(self).actor(id).kind) is None && (old(self).actor(id).kind
                == Kind::Cytoplasm || actors::actor_components(old(self).actor(id)).len() == 0) ==> final(self).floor()
                == old(self).floor(),
            old(self).live(id) ==> final(self).floor() == old(self).floor() || exists|c: Coord|
                #[trigger] final(self).floor()@ == old(self).floor()@.push(
                    Some(Item { kind: actors::actor_components(old(self).actor(id))[0], pos: c }),
                ),
            old(self).live(id) && !is_nucleus_family(old(self).actor(id).kind) ==> forall|x: ActorId|
                x != id && #[trigger] old(self).live(x) ==> final(self).live(x) && final(self).actor(x).pos == old(
                    self,
                ).actor(x).pos,
    {
        let (kind, pos, components) = match self.actors.get(id) {
            Some(a) => (a.kind, a.pos, a.components()),
            None => {
                return ;
            },
        };
        let ghost o = *self;
        match kind.rescues_to() {
            Some(live) => {
                self.remove_actor(id);
                let ghost r1 = *self;
                proof {
                    assert(o.actors@.update(id@ as int, None)[id@ as int] is None);
                    assert(!r1.live(id));
                }
                let back = self.add_actor(live, pos);
                proof {
                    assert(!actors::is_organelle(live));
                    assert(self.actors@.drop_last()[id@ as int] == r1.actors@[id@ as int]);
                    assert(!self.live(id));
                }
                let ghost r2 = *self;
                let line = join_text(&["The ", kind.name(), " struggles back to its feet!"]);
                self.say(line.as_str());
                proof {
                    assert forall|x: ActorId| x != id && #[trigger] o.live(x) implies self.live(x) && self.actor(x).pos
                        == o.actor(x).pos by {
                        ActorId::lemma_view_injective(x, id);
                        assert(o.actors@.update(id@ as int, None)[x@ as int] == o.actors@[x@ as int]);
                        assert(r1.actors@[x@ as int] is Some);
                        assert(r2.actors@.drop_last()[x@ as int] == r1.actors@[x@ as int]);
                    }
                }
                return ;
            },
            None => {},
        }
        let was_nucleus = is_nucleus_family(kind);
        self.remove_actor(id);
        let ghost r3 = *self;
        proof {
            assert forall|x: ActorId| x != id && #[trigger] o.live(x) implies r3.live(x) && r3.actor(x).pos == o.actor(x).pos by {
                ActorId::lemma_view_injective(x, id);
                assert(o.actors@.update(id@ as int, None)[x@ as int] == o.actors@[x@ as int]);
            }
        }
        proof {
            assert(o.actors@.update(id@ as int, None)[id@ as int] is None);
            assert(!self.live(id));
            assert(self.occupant(pos) is None);
        }
        if kind != Kind::Cytoplasm && components.len() > 0 {
            self.become_item(components[0], pos);
        }
        assert(self.occupant(pos) is None);
        if was_nucleus {
            let ghost c0 = *self;
            self.cue(Cue::NucleusLost);
            assert(self.occupant(pos) == c0.occupant(pos));
            self.handle_game_over();
        }
    }

    /// Strip an organelle out of the mass: it drops everything it was made
    /// of.
    pub fn unslime_organelle(&mut self, id: ActorId)
        requires
            old(self).inv(),
        ensures
            final(self).inv(),
            old(self).kept_setup(&*final(self)),
            !old(self).live(id) ==> *final(self) == *old(self),
            old(self).live(id) ==> !final(self).live(id),
            old(self).live(id) ==> (actors::kind_rescues_to(old(self).actor(id).kind) matches Some(k) ==> (
                final(self).occupant(old(self).actor(id).pos) matches Some(x) && final(self).live(x)
                    && final(self).actor(x).kind == k) && final(self).floor() == old(self).floor()),
            old(self).live(id) && actors::kind_rescues_to(old(self).actor(id).kind) is None ==> final(self).occupant(
                old(self).actor(id).pos,
            ) is None,
            old(self).live(id) ==> final(self).floor()@.len() <= old(self).floor()@.len() + actors::actor_components(
                old(self).actor(id),
            ).len(),
            old(self).live(id) ==> final(self).floor()@.subrange(0, old(self).floor()@.len() as int) == old(
                self,
            ).floor()@,
            old(self).live(id) ==> forall|j: int|
                old(self).floor()@.len() <= j < final(self).floor()@.len() ==> (#[trigger] final(self).floor()@[j] matches Some(
                    it,
                ) && actors::actor_components(old(self).actor(id)).contains(it.kind)),
    {
        let (kind, pos, components) = match self.actors.get(id) {
            Some(a) => (a.kind, a.pos, a.components()),
            None => {
                return ;
            },
        };
        let ghost o = *self;
        match kind.rescues_to() {
            Some(live) => {
                self.remove_actor(id);
                let ghost r1 = *self;
                proof {
                    assert(o.actors@.update(id@ as int, None)[id@ as int] is None);
                    assert(!r1.live(id));
                }
                self.add_actor(live, pos);
                proof {
                    assert(!actors::is_organelle(live));
                    assert(self.actors@.drop_last()[id@ as int] == r1.actors@[id@ as int]);
                    assert(!self.live(id));
                    assert(self.floor()@.subrange(0, o.floor()@.len() as int) =~= o.floor()@);
                }
                return ;
            },
            None => {},
        }
        let was_nucleus = is_nucleus_family(kind);
        self.remove_actor(id);
        proof {
            assert(o.actors@.update(id@ as int, None)[id@ as int] is None);
            assert(self.floor()@.subrange(0, o.floor()@.len() as int) =~= o.floor()@);
        }
        let mut k: usize = 0;
        while k < components.len()
            invariant
                old(self).kept_setup(&*self),
                self.inv(),
                k <= components@.len(),
                components@ == actors::actor_components(o.actor(id)),
                !self.live(id),
                self.occupant(pos) is None,
                self.floor()@.len() <= o.floor()@.len() + k,
                o.floor()@.len() <= self.floor()@.len(),
                self.floor()@.subrange(0, o.floor()@.len() as int) == o.floor()@,
                forall|j: int|
                    o.floor()@.len() <= j < self.floor()@.len() ==> (#[trigger] self.floor()@[j] matches Some(it)
                        && components@.contains(it.kind)),
            decreases components@.len() - k,
        {
            let ghost b = *self;
            self.become_item(components[k], pos);
            proof {
                if self.floor() != b.floor() {
                    let c = choose|c: Coord|
                        b.drop_ok(Legal::Loot, c) && #[trigger] self.floor()@ == b.floor()@.push(
                            Some(Item { kind: components@[k as int], pos: c }),
                        );
                    assert(self.floor()@ == b.floor()@.push(Some(Item { kind: components@[k as int], pos: c })));
                    assert(components@.contains(components@[k as int]));
                    assert forall|j: int|
                        o.floor()@.len() <= j < self.floor()@.len() implies (#[trigger] self.floor()@[j] matches Some(
                            it,
                        ) && components@.contains(it.kind)) by {
                        if j < b.floor()@.len() {
                            assert(self.floor()@[j] == b.floor()@[j]);
                        }
                    }
                    assert(self.floor()@.subrange(0, o.floor()@.len() as int) =~= b.floor()@.subrange(
                        0,
                        o.floor()@.len() as int,
                    ));
                }
            }
            k = k + 1;
        }
        if was_nucleus {
            let ghost c0 = *self;
            self.cue(Cue::NucleusLost);
            assert(self.occupant(pos) == c0.occupant(pos));
            self.handle_game_over();
        }
    }

    /// Whether `s` could take a blow aimed at `nucleus`: another live
    /// organelle of the mass, not of the nucleus line, right beside it.
    pub closed spec fn shield_for(&self, nucleus: ActorId, s: ActorId) -> bool {
        &&& self.live(nucleus)
        &&& s != nucleus
        &&& self.player_mass@.contains(s)
        &&& self.live(s)
        &&& is_organelle(self.actor(s).kind)
        &&& !is_nucleus_family(self.actor(s).kind)
        &&& taxi_spec(self.actor(s).pos, self.actor(nucleus).pos) == 1
    }

    /// Whether a live nucleus has anything of the mass beside it to hide
    /// behind.
    pub closed spec fn can_hide(&self, nucleus: ActorId) -> bool {
        exists|s: ActorId| #[trigger] self.shield_for(nucleus, s)
    }

    /// A nucleus dodges death by trading places with a neighbouring organelle
    /// of yours, which takes the hit instead. Somewhere nothing is aiming is
    /// preferred. Returns the sacrifice, or nothing if there was nobody to
    /// hide behind.
    pub fn retreat(&mut self, nucleus: ActorId) -> (r: Option<ActorId>)
        requires
            old(self).inv(),
        ensures
            final(self).inv(),
            old(self).kept_setup(&*final(self)),
            r matches Some(s) ==> s != nucleus && final(self).live(s) && !is_nucleus_family(final(self).actor(s).kind)
                && final(self).actor(s).pos == old(self).actor(nucleus).pos && old(self).live(nucleus),
            r matches Some(s) ==> old(self).shield_for(nucleus, s),
            r matches Some(s) ==> final(self).live(nucleus) && final(self).actor(nucleus).pos == old(self).actor(s).pos
                && final(self).actor(nucleus).kind == old(self).actor(nucleus).kind,
            r matches Some(s) ==> forall|x: ActorId|
                x != nucleus && x != s && #[trigger] old(self).live(x) ==> final(self).live(x) && final(self).actor(x).pos
                    == old(self).actor(x).pos,
            r matches Some(s) ==> final(self).actor(s).kind == old(self).actor(s).kind,
            r matches Some(s) ==> forall|m: ActorId|
                m != nucleus && m != s && old(self).live(m) && is_nucleus_family(old(self).actor(nucleus).kind)
                    && !#[trigger] old(self).guarded(m, nucleus) ==> !final(self).guarded(m, s),
            old(self).mass_spec().len() <= i32::MAX ==> (r is Some <==> old(self).can_hide(nucleus)),
            r is None ==> old(self).chance_only(&*final(self)),
    {
        let pos = match self.actors.get(nucleus) {
            Some(a) => a.pos,
            None => {
                return None;
            },
        };
        let ghost o = *self;
        let mut sacrifices: Vec<ActorId> = Vec::new();
        let mut k: usize = 0;
        while k < self.player_mass.len()
            invariant
                old(self).kept_setup(&*self),
                self.inv(),
                *self == o,
                k <= self.player_mass@.len(),
                sacrifices@.len() <= k,
                self.live(nucleus),
                self.actor(nucleus).pos == pos,
                forall|j: int| 0 <= j < sacrifices@.len() ==> #[trigger] sacrifices@[j] != nucleus && self.live(
                    sacrifices@[j],
                ) && !is_nucleus_family(self.actor(sacrifices@[j]).kind) && taxi_spec(self.actor(sacrifices@[j]).pos, pos) == 1,
                forall|j: int| 0 <= j < sacrifices@.len() ==> self.shield_for(nucleus, #[trigger] sacrifices@[j]),
                forall|j: int| 0 <= j < k ==> #[trigger] self.shield_for(nucleus, self.player_mass@[j]) ==> sacrifices@.len() > 0,
            decreases self.player_mass@.len() - k,
        {
            let id = self.player_mass[k];
            if id != nucleus {
                match self.actors.get(id) {
                    Some(a) => {
                        proof {
                            self.lemma_live_on_map(id);
                            self.lemma_live_on_map(nucleus);
                            self.grid.lemma_taxi_fits(a.pos, pos);
                        }
                        if a.pos.taxi(pos) == 1 && !is_nucleus_family(a.kind) && is_organelle(a.kind) {
                            proof {
                                assert(self.player_mass@[k as int] == id);
                                assert(self.player_mass@.contains(id));
                            }
                            sacrifices.push(id);
                        }
                    },
                    None => {},
                }
            }
            k = k + 1;
        }
        proof {
            if self.can_hide(nucleus) {
                let s = choose|s: ActorId| #[trigger] self.shield_for(nucleus, s);
                let j = choose|j: int| 0 <= j < self.player_mass@.len() && self.player_mass@[j] == s;
                assert(self.shield_for(nucleus, self.player_mass@[j]));
            }
        }
        let mut unpainted: Vec<ActorId> = Vec::new();
        let mut k: usize = 0;
        while k < sacrifices.len()
            invariant
                old(self).kept_setup(&*self),
                self.inv(),
                k <= sacrifices@.len(),
                forall|j: int| 0 <= j < sacrifices@.len() ==> #[trigger] sacrifices@[j] != nucleus && self.live(
                    sacrifices@[j],
                ) && !is_nucleus_family(self.actor(sacrifices@[j]).kind) && taxi_spec(self.actor(sacrifices@[j]).pos, pos) == 1,
                forall|j: int| 0 <= j < unpainted@.len() ==> #[trigger] unpainted@[j] != nucleus && self.live(
                    unpainted@[j],
                ) && !is_nucleus_family(self.actor(unpainted@[j]).kind) && taxi_spec(self.actor(unpainted@[j]).pos, pos) == 1,
                *self == o,
                unpainted@.len() <= k,
                forall|j: int| 0 <= j < sacrifices@.len() ==> self.shield_for(nucleus, #[trigger] sacrifices@[j]),
                forall|j: int| 0 <= j < unpainted@.len() ==> self.shield_for(nucleus, #[trigger] unpainted@[j]),
            decreases sacrifices@.len() - k,
        {
            let id = sacrifices[k];
            match self.actors.get(id) {
                Some(a) => {
                    if !self.reticle_at(a.pos) {
                        unpainted.push(id);
                    }
                },
                None => {},
            }
            k = k + 1;
        }
        let chosen = if unpainted.len() == 0 {
            self.pick(sacrifices.as_slice())
        } else {
            self.pick(unpainted.as_slice())
        };
        let chosen = match chosen {
            Some(c) => c,
            None => {
                return None;
            },
        };
        proof {
            let k = choose|k: int| 0 <= k < sacrifices@.len() && sacrifices@[k] == chosen || 0 <= k
                < unpainted@.len() && unpainted@[k] == chosen;
            if unpainted@.len() == 0 {
                assert(sacrifices@[k] == chosen);
            }
            assert(o.shield_for(nucleus, chosen));
        }
        let ghost pre = *self;
        self.swap_actors(nucleus, chosen);
        proof {
            assert(pre.actors == o.actors);
            assert forall|x: ActorId| x != nucleus && x != chosen && #[trigger] o.live(x) implies self.live(x)
                && self.actor(x).pos == o.actor(x).pos by {
                ActorId::lemma_view_injective(x, nucleus);
                ActorId::lemma_view_injective(x, chosen);
            }
            ActorId::lemma_view_injective(nucleus, chosen);
            assert(pre.grid == o.grid);
            assert forall|m: ActorId| m != nucleus && m != chosen && o.live(m) && is_nucleus_family(o.actor(nucleus).kind)
                && !#[trigger] o.guarded(m, nucleus) implies !self.guarded(
                m,
                chosen,
            ) by {
                Sim::lemma_trade_unguarded(o, *self, nucleus, chosen, m);
            }
        }
        Some(chosen)
    }

    /// Whether a blow is stopped depends on the map, the actors and where
    /// they stand only.
    proof fn lemma_guarded_same(a: Sim, b: Sim, m: ActorId, v: ActorId)
        requires
            a.actors == b.actors,
            a.grid == b.grid,
            a.actor_at == b.actor_at,
        ensures
            a.guarded(m, v) == b.guarded(m, v),
    {
        assert forall|d: Coord| #[trigger] a.force_field_at(d) == b.force_field_at(d) by {}
        assert forall|d: Coord| #[trigger] a.phase_at(d) == b.phase_at(d) by {}
        if a.guarded(m, v) {
            Sim::lemma_guard_moves(a, b, m, v);
        }
        if b.guarded(m, v) {
            Sim::lemma_guard_moves(b, a, m, v);
        }
    }

    /// One direction of [`Sim::lemma_guarded_same`].
    proof fn lemma_guard_moves(a: Sim, b: Sim, m: ActorId, v: ActorId)
        requires
            a.actors == b.actors,
            a.grid == b.grid,
            a.actor_at == b.actor_at,
            a.guarded(m, v),
        ensures
            b.guarded(m, v),
    {
        let vp = a.actor(v).pos;
        let adj = a.grid.adjacent_spec(vp, false);
        if !actors::is_tank_family(a.actor(m).kind) && exists|d: Coord|
            a.grid.spec_in_bounds(d) && taxi_spec(d, vp) <= 3 && #[trigger] a.force_field_at(d) {
            let d = choose|d: Coord| a.grid.spec_in_bounds(d) && taxi_spec(d, vp) <= 3 && #[trigger] a.force_field_at(d);
            assert(b.force_field_at(d));
        } else if exists|d: Coord| adj.contains(d) && #[trigger] a.force_field_at(d) {
            let d = choose|d: Coord| adj.contains(d) && #[trigger] a.force_field_at(d);
            assert(b.force_field_at(d));
        } else {
            let d = choose|d: Coord| adj.contains(d) && #[trigger] a.phase_at(d);
            assert(b.phase_at(d));
        }
    }

    /// A nucleus that nothing guarded against an attacker leaves its
    /// neighbour unguarded against that attacker once the two trade places.
    proof fn lemma_trade_unguarded(a: Sim, b: Sim, n: ActorId, s: ActorId, m: ActorId)
        requires
            a.inv(),
            b.inv(),
            b.grid == a.grid,
            n != s,
            m != n,
            m != s,
            a.live(n),
            a.live(s),
            a.live(m),
            is_nucleus_family(a.actor(n).kind),
            taxi_spec(a.actor(s).pos, a.actor(n).pos) == 1,
            b.actors@ == a.actors@.update(n@ as int, Some(actors::Actor { pos: a.actor(s).pos, ..a.actor(n) })).update(
                s@ as int,
                Some(actors::Actor { pos: a.actor(n).pos, ..a.actor(s) }),
            ),
            !a.guarded(m, n),
        ensures
            !b.guarded(m, s),
    {
        ActorId::lemma_view_injective(n, s);
        ActorId::lemma_view_injective(m, n);
        ActorId::lemma_view_injective(m, s);
        let vp = a.actor(n).pos;
        let sp = a.actor(s).pos;
        assert(b.live(s) && b.actor(s).pos == vp);
        assert(b.live(m) && b.actor(m) == a.actor(m));
        a.lemma_live_on_map(s);
        a.lemma_live_on_map(n);
        a.grid.lemma_adjacent_spec(vp);
        assert(a.grid.adjacent_spec(vp, false).contains(sp));
        if a.actor(s).kind == Kind::ForceField {
            assert(a.force_field_at(sp));
        }
        if a.actor(s).kind == Kind::PhaseMembrane {
            assert(a.phase_at(sp));
        }
        assert forall|d: Coord| #[trigger] b.force_field_at(d) implies a.force_field_at(d) by {
            b.lemma_occupant_live(d);
            let x = b.occupant(d)->0;
            ActorId::lemma_view_injective(x, n);
            ActorId::lemma_view_injective(x, s);
            if x != n && x != s {
                assert(a.live(x) && a.actor(x) == b.actor(x));
                a.lemma_live_on_map(x);
            }
        }
        assert forall|d: Coord| #[trigger] b.phase_at(d) implies a.phase_at(d) by {
            b.lemma_occupant_live(d);
            let x = b.occupant(d)->0;
            ActorId::lemma_view_injective(x, n);
            ActorId::lemma_view_injective(x, s);
            if x != n && x != s {
                assert(a.live(x) && a.actor(x) == b.actor(x));
                a.lemma_live_on_map(x);
            }
        }
        if b.guarded(m, s) {
            let adj = a.grid.adjacent_spec(vp, false);
            if !actors::is_tank_family(b.actor(m).kind) && exists|d: Coord|
                b.grid.spec_in_bounds(d) && taxi_spec(d, vp) <= 3 && #[trigger] b.force_field_at(d) {
                let d = choose|d: Coord| b.grid.spec_in_bounds(d) && taxi_spec(d, vp) <= 3 && #[trigger] b.force_field_at(d);
                assert(a.force_field_at(d));
            } else if exists|d: Coord| adj.contains(d) && #[trigger] b.force_field_at(d) {
                let d = choose|d: Coord| adj.contains(d) && #[trigger] b.force_field_at(d);
                assert(a.force_field_at(d));
            } else {
                let d = choose|d: Coord| adj.contains(d) && #[trigger] b.phase_at(d);
                assert(a.phase_at(d));
            }
            assert(a.guarded(m, n));
        }
    }

    /// Whether a live force field stands at `c`.
    pub closed spec fn force_field_at(&self, c: Coord) -> bool {
        self.occupant(c) matches Some(x) && self.live(x) && self.actor(x).kind == Kind::ForceField
    }

    /// Whether a live phase membrane stands at `c`.
    pub closed spec fn phase_at(&self, c: Coord) -> bool {
        self.occupant(c) matches Some(x) && self.live(x) && self.actor(x).kind == Kind::PhaseMembrane
    }

    /// Whether a blow of `monster` at `victim` is stopped: both are alive,
    /// and a force field stands within three cells of the victim (against
    /// an unarmoured attacker), or one stands right beside it, or a phase
    /// membrane stands right beside it.
    pub closed spec fn guarded(&self, monster: ActorId, victim: ActorId) -> bool {
        &&& self.live(monster)
        &&& self.live(victim)
        &&& {
            let vp = self.actor(victim).pos;
            let adj = self.grid.adjacent_spec(vp, false);
            ||| (!actors::is_tank_family(self.actor(monster).kind) && exists|d: Coord|
                self.grid.spec_in_bounds(d) && taxi_spec(d, vp) <= 3 && #[trigger] self.force_field_at(d))
            ||| exists|d: Coord| adj.contains(d) && #[trigger] self.force_field_at(d)
            ||| exists|d: Coord| adj.contains(d) && #[trigger] self.phase_at(d)
        }
    }

    /// Whether anything nearby steps in and stops the blow: a force field
    /// within three cells when the attacker is unarmoured, a force field
    /// right beside the victim whoever the attacker is, and finally a phase
    /// membrane, which swaps itself into the victim's place and kills a
    /// human attacker.
    fn check_and_save(&mut self, monster: ActorId, victim: ActorId) -> (saved: bool)
        requires
            old(self).inv(),
        ensures
            final(self).inv(),
            old(self).kept_setup(&*final(self)),
            !saved ==> old(self).chance_only(&*final(self)),
            saved == old(self).guarded(monster, victim),
            saved && monster != victim ==> final(self).live(victim),
            forall|x: ActorId|
                x != monster && x != victim && #[trigger] old(self).live(x) && old(self).actor(x).kind != Kind::PhaseMembrane
                    ==> final(self).live(x) && final(self).actor(x).pos == old(self).actor(x).pos,
    {
        let (monster_name, monster_kind) = match self.actors.get(monster) {
            Some(a) => (a.name, a.kind),
            None => {
                return false;
            },
        };
        let (victim_name, victim_pos) = match self.actors.get(victim) {
            Some(a) => (a.name, a.pos),
            None => {
                return false;
            },
        };
        let ghost o = *self;
        let mut long_reach = false;
        if !actors::is_tank_family(monster_kind) {
            let near = self.grid.cells_in_diamond(victim_pos, 3);
            let mut k: usize = 0;
            while k < near.len()
                invariant
                    old(self).kept_setup(&*self),
                    self.inv(),
                    *self == o,
                    k <= near@.len(),
                    long_reach == exists|i: int| 0 <= i < k && #[trigger] self.force_field_at(near@[i]),
                decreases near@.len() - k,
            {
                let here = self.is_force_field(near[k]);
                assert(here == self.force_field_at(near@[k as int]));
                if here {
                    long_reach = true;
                }
                proof {
                    if !here && !long_reach {
                        assert forall|i: int| 0 <= i < k + 1 implies !#[trigger] self.force_field_at(near@[i]) by {
                            if i < k {
                            }
                        }
                    }
                }
                k = k + 1;
            }
            proof {
                if long_reach {
                    let i = choose|i: int| 0 <= i < k && #[trigger] self.force_field_at(near@[i]);
                    assert(self.force_field_at(near@[i]));
                } else {
                    assert forall|d: Coord|
                        self.grid.spec_in_bounds(d) && taxi_spec(d, victim_pos) <= 3 implies !#[trigger] self.force_field_at(d) by {
                        assert(near@.contains(d));
                        let i = choose|i: int| 0 <= i < near@.len() && near@[i] == d;
                        assert(!self.force_field_at(near@[i]));
                    }
                }
            }
        }
        let around = self.grid.adjacent(victim_pos);
        proof {
            self.grid.lemma_adjacent_distinct(victim_pos, false);
        }
        let mut beside = false;
        let mut k: usize = 0;
        while k < around.len()
            invariant
                old(self).kept_setup(&*self),
                self.inv(),
                *self == o,
                k <= around@.len(),
                beside == exists|i: int| 0 <= i < k && #[trigger] self.force_field_at(around@[i]),
            decreases around@.len() - k,
        {
            let here = self.is_force_field(around[k]);
            assert(here == self.force_field_at(around@[k as int]));
            if here {
                beside = true;
            }
            proof {
                if !here && !beside {
                    assert forall|i: int| 0 <= i < k + 1 implies !#[trigger] self.force_field_at(around@[i]) by {
                        if i < k {
                        }
                    }
                }
            }
            k = k + 1;
        }
        proof {
            if beside {
                let i = choose|i: int| 0 <= i < k && #[trigger] self.force_field_at(around@[i]);
                assert(around@.contains(around@[i]));
            } else {
                assert forall|d: Coord| around@.contains(d) implies !#[trigger] self.force_field_at(d) by {
                    let i = choose|i: int| 0 <= i < around@.len() && around@[i] == d;
                    assert(!self.force_field_at(around@[i]));
                }
            }
        }
        if long_reach || beside {
            let line = join_text(
                &["An energy mantle force protects the ", victim_name, " from the ", monster_name],
            );
            self.say(line.as_str());
            return true;
        }
        let mut saviors: Vec<ActorId> = Vec::new();
        let mut k: usize = 0;
        while k < around.len()
            invariant
                old(self).kept_setup(&*self),
                self.inv(),
                *self == o,
                k <= around@.len(),
                around@.len() <= 4,
                saviors@.len() <= k,
                (saviors@.len() > 0) == exists|i: int| 0 <= i < k && #[trigger] self.phase_at(around@[i]),
                forall|m: int| 0 <= m < saviors@.len() ==> self.live(#[trigger] saviors@[m]) && self.actor(saviors@[m]).kind
                    == Kind::PhaseMembrane,
            decreases around@.len() - k,
        {
            match self.actor_at(around[k]) {
                Some(a) => match self.actors.get(a) {
                    Some(x) => {
                        if x.kind == Kind::PhaseMembrane {
                            let ghost sb = saviors@;
                            saviors.push(a);
                            proof {
                                assert forall|m: int| 0 <= m < saviors@.len() implies self.live(#[trigger] saviors@[m])
                                    && self.actor(saviors@[m]).kind == Kind::PhaseMembrane by {
                                    if m < sb.len() {
                                        assert(saviors@[m] == sb[m]);
                                    }
                                }
                            }
                        }
                    },
                    None => {},
                },
                None => {},
            }
            proof {
                if saviors@.len() > 0 && !exists|i: int| 0 <= i < k && #[trigger] self.phase_at(around@[i]) {
                    assert(self.phase_at(around@[k as int]));
                }
            }
            k = k + 1;
        }
        proof {
            if saviors@.len() > 0 {
                let i = choose|i: int| 0 <= i < k && #[trigger] self.phase_at(around@[i]);
                assert(around@.contains(around@[i]));
            } else {
                assert forall|d: Coord| around@.contains(d) implies !#[trigger] self.phase_at(d) by {
                    let i = choose|i: int| 0 <= i < around@.len() && around@[i] == d;
                    assert(!self.phase_at(around@[i]));
                }
            }
        }
        let savior = match self.pick(saviors.as_slice()) {
            Some(s) => s,
            None => {
                return false;
            },
        };
        let savior_name = match self.actors.get(savior) {
            Some(a) => a.name,
            None => "",
        };
        let ghost pre = *self;
        proof {
            let m = choose|m: int| 0 <= m < saviors@.len() && saviors@[m] == savior;
            assert(pre.actors == o.actors);
            assert(o.actor(savior).kind == Kind::PhaseMembrane);
        }
        self.swap_actors(savior, victim);
        proof {
            assert(self.live(victim));
            assert forall|x: ActorId| x != monster && x != victim && #[trigger] o.live(x) && o.actor(x).kind != Kind::PhaseMembrane
                implies self.live(x) && self.actor(x).pos == o.actor(x).pos by {
                ActorId::lemma_view_injective(x, savior);
                ActorId::lemma_view_injective(x, victim);
            }
        }
        let ghost swapped = *self;
        let line = join_text(
            &[
                "The ",
                savior_name,
                " rematerializes and protects the ",
                victim_name,
                " from the ",
                monster_name,
                "!",
            ],
        );
        self.say(line.as_str());
        let ghost said = *self;
        proof {
            assert(said.actors == swapped.actors);
        }
        if is_npc(monster_kind) {
            let line = join_text(&[monster_name, " is killed by the rematerializing phase membrane!!"]);
            self.say(line.as_str());
            let ghost before = *self;
            self.kill_npc(monster);
            proof {
                assert forall|x: ActorId| x != monster && #[trigger] before.live(x) implies self.live(x) && self.actor(x).pos
                    == before.actor(x).pos by {
                    ActorId::lemma_view_injective(x, monster);
                    assert(before.arena()@.update(monster@ as int, None)[x@ as int] == before.arena()@[x@ as int]);
                }
                if monster != victim {
                    ActorId::lemma_view_injective(monster, victim);
                    assert(before.live(victim));
                    assert(before.arena()@.update(monster@ as int, None)[victim@ as int] is Some);
                }
                assert(before.actors == said.actors);
                assert forall|x: ActorId| x != monster && #[trigger] said.live(x) implies self.live(x) && self.actor(x).pos
                    == said.actor(x).pos by {
                    assert(before.live(x));
                }
            }
        }
        proof {
            assert forall|x: ActorId| x != monster && x != victim && #[trigger] o.live(x) && o.actor(x).kind
                != Kind::PhaseMembrane implies self.live(x) && self.actor(x).pos == o.actor(x).pos by {
                assert(swapped.live(x) && swapped.actor(x).pos == o.actor(x).pos);
                assert(said.live(x) && said.actor(x).pos == o.actor(x).pos);
                if is_npc(monster_kind) {
                    ActorId::lemma_view_injective(x, monster);
                } else {
                    assert(self.actors == said.actors);
                }
            }
        }
        true
    }

    /// Whether a force field stands at `c`.
    fn is_force_field(&self, c: Coord) -> (b: bool)
        requires
            self.inv(),
        ensures
            b == (self.occupant(c) matches Some(x) && self.live(x) && self.actor(x).kind == Kind::ForceField),
    {
        match self.actor_at(c) {
            Some(a) => match self.actors.get(a) {
                Some(x) => x.kind == Kind::ForceField,
                None => false,
            },
            None => false,
        }
    }

    /// One human striking one thing of yours.
    ///
    /// A nucleus is saved if anything can save it and otherwise trades places
    /// with a neighbour who dies instead. A membrane resolves its own
    /// kill-or-die rule and is never rescued by anybody. Everything else in
    /// your body gets one chance at a save and is then destroyed.
    pub fn attack(&mut self, monster: ActorId, victim: ActorId)
        requires
            old(self).inv(),
        ensures
            final(self).inv(),
            old(self).kept_setup(&*final(self)),
            !(old(self).live(monster) && old(self).live(victim)) ==> *final(self) == *old(self),
            old(self).live(monster) && old(self).live(victim) && is_nucleus_family(old(self).actor(victim).kind)
                && !old(self).guarded(monster, victim) && !old(self).can_hide(victim) ==> !final(self).live(victim),
            old(self).live(monster) && old(self).live(victim) && !is_nucleus_family(old(self).actor(victim).kind)
                && actors::is_membrane_family(old(self).actor(victim).kind) && is_npc(old(self).actor(monster).kind)
                ==> if old(self).actor(monster).armor > 0 && !actors::kills_armored_attackers(
                old(self).actor(victim).kind,
            ) {
                !final(self).live(victim)
            } else {
                !final(self).live(monster)
            },
            old(self).live(monster) && old(self).live(victim) && !is_nucleus_family(old(self).actor(victim).kind)
                && !(actors::is_membrane_family(old(self).actor(victim).kind) && is_npc(old(self).actor(monster).kind))
                && (!is_organelle(old(self).actor(victim).kind) || !old(self).guarded(monster, victim))
                ==> !final(self).live(victim),
            monster != victim && old(self).guarded(monster, victim) && (is_nucleus_family(old(self).actor(victim).kind)
                || (is_organelle(old(self).actor(victim).kind) && !(actors::is_membrane_family(
                old(self).actor(victim).kind,
            ) && is_npc(old(self).actor(monster).kind)))) ==> final(self).live(victim),
            old(self).live(monster) && old(self).live(victim) && monster != victim && is_nucleus_family(
                old(self).actor(victim).kind,
            ) && !old(self).guarded(monster, victim) && old(self).can_hide(victim) && old(self).mass_spec().len()
                <= i32::MAX ==> final(self).live(victim) && exists|s: ActorId|
                #[trigger] old(self).shield_for(victim, s) && final(self).actor(victim).pos == old(self).actor(s).pos,
            old(self).live(monster) && old(self).live(victim) && monster != victim && is_npc(old(self).actor(monster).kind)
                && is_nucleus_family(old(self).actor(victim).kind) && !old(self).guarded(monster, victim) && old(
                self,
            ).can_hide(victim) && old(self).mass_spec().len() <= i32::MAX ==> exists|s: ActorId|
                #[trigger] old(self).shield_for(victim, s) && final(self).actor(victim).pos == old(self).actor(s).pos && (
                !final(self).live(s) || (actors::is_membrane_family(old(self).actor(s).kind) && !final(self).live(
                monster,
            ))),
    {
        let ghost v0 = victim;
        let ghost mut first = true;
        let mut target = victim;
        loop
            invariant
                old(self).kept_setup(&*self),
                self.inv(),
                v0 == victim,
                first ==> *self == *old(self) && target == v0,
                !first ==> old(self).live(monster) && old(self).live(v0) && is_nucleus_family(old(self).actor(v0).kind)
                    && old(self).can_hide(v0) && !old(self).guarded(monster, v0),
                !first ==> target != v0 && self.live(v0) && is_nucleus_family(self.actor(v0).kind) && (self.live(target)
                    ==> !is_nucleus_family(self.actor(target).kind)) && exists|s: ActorId|
                    #[trigger] old(self).shield_for(v0, s) && self.actor(v0).pos == old(self).actor(s).pos,
                !first && is_npc(old(self).actor(monster).kind) && monster != v0 ==> old(self).shield_for(v0, target)
                    && self.actor(v0).pos == old(self).actor(target).pos && self.live(target) && self.actor(target).kind
                    == old(self).actor(target).kind && self.live(monster) && !self.guarded(monster, target),
            decreases (if self.live(target) && is_nucleus_family(self.actor(target).kind) {
                1nat
            } else {
                0nat
            }),
        {
            let (monster_name, monster_armor, monster_kind) = match self.actors.get(monster) {
                Some(a) => (a.name, a.armor, a.kind),
                None => {
                    return ;
                },
            };
            let (victim_name, victim_kind) = match self.actors.get(target) {
                Some(a) => (a.name, a.kind),
                None => {
                    return ;
                },
            };
            let monster_is_npc = is_npc(monster_kind);
            let ghost w0 = *self;
            let ghost spot = w0.actor(v0).pos;
            proof {
                if !first {
                    ActorId::lemma_view_injective(v0, target);
                    if monster != v0 {
                        ActorId::lemma_view_injective(v0, monster);
                    }
                }
            }
            if is_nucleus_family(victim_kind) {
                if self.check_and_save(monster, target) {
                    return ;
                }
                let ghost c1 = *self;
                proof {
                    if first {
                        assert forall|s: ActorId| c1.shield_for(v0, s) == old(self).shield_for(v0, s) by {}
                        if old(self).can_hide(v0) {
                            let s = choose|s: ActorId| #[trigger] old(self).shield_for(v0, s);
                            assert(c1.shield_for(v0, s));
                        }
                        if c1.can_hide(v0) {
                            let s = choose|s: ActorId| #[trigger] c1.shield_for(v0, s);
                            assert(old(self).shield_for(v0, s));
                        }
                        assert(c1.can_hide(v0) == old(self).can_hide(v0));
                        assert(c1.mass_spec() == old(self).mass_spec());
                    }
                }
                match self.retreat(target) {
                    Some(sacrifice) => {
                        let sacrifice_name = match self.actors.get(sacrifice) {
                            Some(a) => a.name,
                            None => "",
                        };
                        let line = join_text(
                            &[
                                "The ",
                                victim_name,
                                " retreated into the nearby ",
                                sacrifice_name,
                                ", thereby avoiding death",
                            ],
                        );
                        let ghost before = *self;
                        self.say(line.as_str());
                        proof {
                            assert(self.live(sacrifice) == before.live(sacrifice));
                            assert(self.actors == before.actors);
                            if first {
                                assert(c1.shield_for(v0, sacrifice));
                                assert(old(self).shield_for(v0, sacrifice));
                                assert(old(self).can_hide(v0));
                                if is_npc(old(self).actor(monster).kind) && monster != v0 {
                                    assert(c1.actors == w0.actors && c1.grid == w0.grid && c1.actor_at == w0.actor_at);
                                    Sim::lemma_guarded_same(c1, w0, monster, v0);
                                    assert(!c1.guarded(monster, v0));
                                    assert(c1.live(monster));
                                    assert(monster != sacrifice);
                                    assert(!before.guarded(monster, sacrifice));
                                    assert(before.live(monster));
                                    assert(self.actors == before.actors && self.grid == before.grid
                                        && self.actor_at == before.actor_at);
                                    Sim::lemma_guarded_same(*self, before, monster, sacrifice);
                                    assert(!self.guarded(monster, sacrifice));
                                }
                            }
                            first = false;
                        }
                        target = sacrifice;
                    },
                    None => {
                        let line = join_text(&[victim_name, " could not retreat and was destroyed"]);
                        self.say(line.as_str());
                        self.destroy_organelle(target);
                        return ;
                    },
                }
            } else if actors::is_membrane_family(victim_kind) && monster_is_npc {
                if monster_armor > 0 && !actors::kills_armored_attackers(victim_kind) {
                    let line = join_text(&["The ", monster_name, " shrugs off the ", victim_name, "'s proteins"]);
                    self.say(line.as_str());
                    let ghost w1 = *self;
                    self.destroy_organelle(target);
                    let ghost w2 = *self;
                    self.cue(Cue::OrganelleLost);
                    proof {
                        if !first {
                            assert(w1.actors == w0.actors);
                            assert(w1.live(target) && !is_nucleus_family(w1.actor(target).kind));
                            assert(w1.live(v0));
                            assert(w2.live(v0) && w2.actor(v0).pos == spot);
                            assert(self.actors == w2.actors);
                        }
                    }
                } else {
                    let line = join_text(&["The ", monster_name, " is impaled by sharp ", victim_name, " proteins!"]);
                    self.say(line.as_str());
                    let ghost w1 = *self;
                    self.kill_npc(monster);
                    proof {
                        if !first && monster != v0 {
                            assert(w1.actors == w0.actors);
                            assert(w1.live(v0));
                            assert(w1.arena()@.update(monster@ as int, None)[v0@ as int] == w1.arena()@[v0@ as int]);
                            assert(self.live(v0) && self.actor(v0).pos == spot);
                        }
                    }
                }
                proof {
                    if !first && monster != v0 {
                        let s = choose|s: ActorId| #[trigger] old(self).shield_for(v0, s) && spot == old(self).actor(s).pos;
                        assert(old(self).shield_for(v0, s) && self.actor(v0).pos == old(self).actor(s).pos);
                    }
                }
                return ;
            } else if is_organelle(victim_kind) {
                let saved = self.check_and_save(monster, target);
                let ghost w1 = *self;
                proof {
                    if !first && monster != v0 {
                        assert(w0.actor(v0).kind != Kind::PhaseMembrane);
                        assert(w1.live(v0) && w1.actor(v0).pos == spot);
                    }
                }
                if !saved {
                    let line = join_text(&["The ", monster_name, " destroys the ", victim_name]);
                    self.say(line.as_str());
                    let ghost w2 = *self;
                    self.destroy_organelle(target);
                    let ghost w3 = *self;
                    self.cue(Cue::OrganelleLost);
                    proof {
                        if !first && monster != v0 {
                            assert(w1.actors == w0.actors);
                            assert(w2.actors == w1.actors);
                            assert(w2.live(target) && !is_nucleus_family(w2.actor(target).kind));
                            assert(w2.live(v0));
                            assert(w3.live(v0) && w3.actor(v0).pos == spot);
                            assert(self.actors == w3.actors);
                        }
                    }
                }
                proof {
                    if !first && monster != v0 {
                        assert(self.live(v0) && self.actor(v0).pos == spot);
                        let s = choose|s: ActorId| #[trigger] old(self).shield_for(v0, s) && spot == old(self).actor(s).pos;
                        assert(old(self).shield_for(v0, s) && self.actor(v0).pos == old(self).actor(s).pos);
                    }
                }
                return ;
            } else {
                let line = join_text(&["A ", victim_name, " is destroyed by a ", monster_name]);
                self.say(line.as_str());
                let ghost r0 = self.actors@;
                let ghost w1 = *self;
                self.remove_actor(target);
                proof {
                    assert(r0.update(target@ as int, None)[target@ as int] is None);
                    if !first && monster != v0 {
                        assert(w1.actors == w0.actors);
                        assert(w1.arena()@.update(target@ as int, None)[v0@ as int] == w1.arena()@[v0@ as int]);
                        assert(self.live(v0) && self.actor(v0).pos == spot);
                        let s = choose|s: ActorId| #[trigger] old(self).shield_for(v0, s) && spot == old(self).actor(s).pos;
                        assert(old(self).shield_for(v0, s) && self.actor(v0).pos == old(self).actor(s).pos);
                    }
                }
                return ;
            }
        }
    }

    // -- cities ---------------------------------------------------------------

    /// Bring a city down, raise the price of the ones still standing by a
    /// step, and check whether that was the last one you needed.
    pub fn destroy_city(&mut self, id: ActorId)
        requires
            old(self).inv(),
        ensures
            final(self).inv(),
            old(self).kept_setup(&*final(self)),
            !old(self).live(id) ==> *final(self) == *old(self),
            old(self).live(id) ==> !final(self).live(id),
            old(self).live(id) && old(self).destroyed_spec() < old(self).rules_spec().num_cities
                ==> final(self).destroyed_spec() == old(self).destroyed_spec() + 1,
            final(self).fuel_m() <= old(self).fuel_m(),
            final(self).fuel_f() <= old(self).fuel_f(),
    {
        let pos = match self.actors.get(id) {
            Some(a) => a.pos,
            None => {
                return ;
            },
        };
        let ghost before = self.actors@;
        self.remove_actor(id);
        proof {
            assert(before.update(id@ as int, None)[id@ as int] is None);
        }
        let ghost o = *self;
        self.grid.set_props(pos, true, true, true);
        proof {
            o.grid.lemma_wf();
            if o.grid.spec_in_bounds(pos) {
                lemma_flat_index(o.grid.spec_width(), o.grid.spec_height(), pos);
            }
            lemma_occupancy_new_grid(o.grid, self.grid, pos, self.actors@, self.actor_at@, self.items@, self.item_at@);
        }
        self.cue(Cue::CityDestroyed);
        if self.cities_destroyed < self.rules.num_cities {
            self.cities_destroyed = self.cities_destroyed + 1;
        }
        let ghost d1 = self.cities_destroyed;
        proof {
            lemma_armor_fits(self.rules, self.cities_destroyed as int);
        }
        let armor = self.city_armor();
        let mut k: usize = 0;
        while k < self.cities.len()
            invariant
                old(self).kept_setup(&*self),
                self.inv(),
                k <= self.cities@.len(),
                !self.live(id),
                armor == armor_for(self.rules, self.cities_destroyed as int),
                self.cities_destroyed == d1,
                self.fuel_m() <= old(self).fuel_m(),
                self.fuel_f() <= old(self).fuel_f(),
            decreases self.cities@.len() - k,
        {
            let c = self.cities[k];
            let ghost b = self.actors@;
            match self.actors.get_mut(c) {
                Some(a) => {
                    a.armor = armor;
                },
                None => {},
            }
            proof {
                assert(same_bodies(b, self.actors@));
                lemma_occupancy_same_bodies(self.grid, b, self.actors@, self.actor_at@, self.items@, self.item_at@);
                assert(!holds(self.actors@, id@));
                lemma_counts_same_kinds(b, self.actors@);
            }
            k = k + 1;
        }
        let remaining = self.cities.len();
        if remaining <= 2147483647usize && (remaining as i32) <= self.rules.grace_cities {
            self.win();
            return ;
        }
        self.say("The humans trigger a cave-in, blocking off this exit to the surface!");
        let standing: i64 = if remaining > 2147483647usize {
            2147483647
        } else {
            remaining as i64
        };
        let charges: i64 = standing - self.rules.grace_cities as i64 - 1;
        if charges > 0 {
            let count = decimal_text(charges as u64);
            let plural = if charges == 1 {
                ""
            } else {
                "s"
            };
            let line = join_text(
                &[
                    "You were able to glimpse their stockpile: The humans have ",
                    count.as_str(),
                    " blast charge",
                    plural,
                    " remaining...",
                ],
            );
            self.say(line.as_str());
        } else {
            self.say("The humans are out of blast charges! Now is your chance, find an exit!");
        }
    }

    /// Escape.
    fn win(&mut self)
        requires
            old(self).inv(),
        ensures
            final(self).inv(),
            old(self).kept_setup(&*final(self)),
            final(self).phase_spec() == (Phase::GameOver { won: true }),
            final(self).destroyed_spec() == old(self).destroyed_spec(),
            final(self).arena() == old(self).arena(),
            final(self).floor() == old(self).floor(),
            forall|id: ActorId| #[trigger] final(self).live(id) == old(self).live(id),
    {
        self.say(
            "The humans try to trigger a cave-in without a blast charge, but you slip through just in time!",
        );
        self.say("You escape to the surface and live out the rest of your days in peace.");
        let score = decimal_text(self.player_mass.len() as u64);
        let time = decimal_text(self.schedule.time());
        let line = join_text(
            &[
                "Final score: ",
                score.as_str(),
                ". Time to win (A turn is 16 time units): ",
                time.as_str(),
                ".",
            ],
        );
        self.say(line.as_str());
        self.say("Thanks for playing!.");
        self.schedule.clear();
        self.phase = Phase::GameOver { won: true };
        self.player_turn = true;
        self.active = None;
        let ghost b = *self;
        self.cue(Cue::Win);
        proof {
            assert forall|id: ActorId| #[trigger] self.live(id) == old(self).live(id) by {
                assert(b.live(id) == old(self).live(id));
            }
        }
    }

    // -- the drag tree ----------------------------------------------------------

    /// Breadth-first over everything player-aligned and not anchored, from
    /// `root`, with neighbours taken left, right, up, down.
    fn build_slime_tree(&self, root: ActorId) -> (t: player::SlimeTree)
        requires
            self.inv(),
            self.live(root),
        ensures
            player::tree_ok(t.nodes@, t.max_depth),
            t.root == root,
            t.version == self.version,
    {
        let cap = self.actors.capacity();
        let mut nodes: Vec<player::Node> = Vec::new();
        nodes.push(player::Node { id: root, parent: None, dist: 0 });
        let mut in_tree: Vec<bool> = repeat(false, cap);
        in_tree.set(root.raw(), true);
        let mut last: Vec<usize> = Vec::new();
        last.push(0);
        let mut depth: usize = 1;
        let mut max_depth: usize = 0;
        while last.len() > 0
            invariant
                self.inv(),
                in_tree@.len() == cap,
                cap == self.actors@.len(),
                player::tree_ok(nodes@, max_depth),
                max_depth <= depth,
                depth >= 1,
                forall|k: int| 0 <= k < last@.len() ==> #[trigger] last@[k] < nodes@.len() && nodes@[last@[k] as int].dist
                    + 1 == depth,
                last@.len() > 0 ==> depth <= nodes@.len(),
            decreases count_where(cap as nat, |i: nat| i < in_tree@.len() && !in_tree@[i as int]), (if last@.len() > 0 {
                1nat
            } else {
                0nat
            }),
        {
            let ghost unseen0 = count_where(cap as nat, |i: nat| i < in_tree@.len() && !in_tree@[i as int]);
            let mut frontier: Vec<usize> = Vec::new();
            let mut k: usize = 0;
            while k < last.len()
                invariant
                    self.inv(),
                    in_tree@.len() == cap,
                    cap == self.actors@.len(),
                    player::tree_ok(nodes@, max_depth),
                    max_depth <= depth,
                    depth >= 1,
                    forall|j: int| 0 <= j < last@.len() ==> #[trigger] last@[j] < nodes@.len() && nodes@[last@[j] as int].dist
                        + 1 == depth,
                    forall|j: int| 0 <= j < frontier@.len() ==> #[trigger] frontier@[j] < nodes@.len() && nodes@[frontier@[j] as int].dist
                        == depth,
                    depth <= nodes@.len(),
                    frontier@.len() > 0 ==> depth < nodes@.len(),
                    frontier@.len() > 0 ==> count_where(cap as nat, |i: nat| i < in_tree@.len() && !in_tree@[i as int])
                        < unseen0,
                    count_where(cap as nat, |i: nat| i < in_tree@.len() && !in_tree@[i as int]) <= unseen0,
                    k <= last@.len(),
                decreases last@.len() - k,
            {
                let parent = last[k];
                let pid = nodes[parent].id;
                let pos = match self.actors.get(pid) {
                    Some(a) => a.pos,
                    None => {
                        k = k + 1;
                        continue;
                    },
                };
                let around = self.grid.adjacent(pos);
                let mut j: usize = 0;
                while j < around.len()
                    invariant
                        self.inv(),
                        in_tree@.len() == cap,
                        cap == self.actors@.len(),
                        player::tree_ok(nodes@, max_depth),
                        max_depth <= depth,
                        depth >= 1,
                        parent < nodes@.len(),
                        nodes@[parent as int].dist + 1 == depth,
                        forall|l: int| 0 <= l < last@.len() ==> #[trigger] last@[l] < nodes@.len() && nodes@[last@[l] as int].dist
                            + 1 == depth,
                        forall|l: int| 0 <= l < frontier@.len() ==> #[trigger] frontier@[l] < nodes@.len() && nodes@[frontier@[l] as int].dist
                            == depth,
                        depth <= nodes@.len(),
                        frontier@.len() > 0 ==> depth < nodes@.len(),
                        frontier@.len() > 0 ==> count_where(cap as nat, |i: nat| i < in_tree@.len() && !in_tree@[i as int])
                            < unseen0,
                        count_where(cap as nat, |i: nat| i < in_tree@.len() && !in_tree@[i as int]) <= unseen0,
                    decreases around@.len() - j,
                {
                    match self.actor_at(around[j]) {
                        Some(id) => match self.actors.get(id) {
                            Some(actor) => {
                                if !(actor.slime == 0 || actor.anchor || in_tree[id.raw()]) {
                                    let ghost before = in_tree@;
                                    in_tree.set(id.raw(), true);
                                    proof {
                                        let f = |x: nat| x < before.len() && !before[x as int];
                                        let g = |x: nat| x < in_tree@.len() && !in_tree@[x as int];
                                        assert(f(id@));
                                        assert(!g(id@));
                                        assert forall|x: nat| x < cap && x != id@ implies #[trigger] g(x) == f(x) by {}
                                        lemma_count_drop(cap as nat, f, g, id@);
                                    }
                                    max_depth = depth;
                                    let ghost n0 = nodes@;
                                    nodes.push(player::Node { id, parent: Some(parent), dist: depth });
                                    frontier.push(nodes.len() - 1);
                                    proof {
                                        assert forall|l: int| 0 < l < nodes@.len() implies {
                                            &&& (#[trigger] nodes@[l]).parent is Some
                                            &&& nodes@[l].parent->0 < l
                                            &&& nodes@[l].dist == nodes@[nodes@[l].parent->0 as int].dist + 1
                                        } by {
                                            if l < n0.len() {
                                                assert(nodes@[l] == n0[l]);
                                                assert(nodes@[n0[l].parent->0 as int] == n0[n0[l].parent->0 as int]);
                                            }
                                        }
                                        assert forall|l: int| 0 <= l < nodes@.len() implies (#[trigger] nodes@[l]).dist
                                            <= max_depth && nodes@[l].dist <= l by {
                                            if l < n0.len() {
                                                assert(nodes@[l] == n0[l]);
                                            }
                                        }
                                    }
                                }
                            },
                            None => {},
                        },
                        None => {},
                    }
                    j = j + 1;
                }
                k = k + 1;
            }
            if frontier.len() == 0 {
                break;
            }
            let grown = nodes.len();
            proof {
                assert(depth < grown);
            }
            depth = depth + 1;
            last = frontier;
        }
        player::SlimeTree { root, version: self.version, nodes, max_depth }
    }

    /// Rebuild the drag tree for `root` unless the cached one still
    /// describes the world as it is.
    fn refresh_slime_tree(&mut self, root: ActorId)
        requires
            old(self).inv(),
            old(self).live(root),
        ensures
            final(self).inv(),
            old(self).kept_setup(&*final(self)),
            *final(self) == (Sim { drag_cache: final(self).drag_cache, ..*old(self) }),
            final(self).drag_cache is Some,
    {
        let stale = match &self.drag_cache {
            Some(t) => t.root != root || t.version != self.version,
            None => true,
        };
        if stale {
            let tree = self.build_slime_tree(root);
            self.drag_cache = Some(tree);
        }
    }

    /// Repaint the mass: body green everywhere, path green on every
    /// organelle that lies on some deepest chain.
    pub(crate) fn color_moving_slime(&mut self, root: ActorId)
        requires
            old(self).inv(),
            old(self).live(root),
        ensures
            final(self).inv(),
            old(self).kept_setup(&*final(self)),
            same_places(old(self).arena()@, final(self).arena()@),
            final(self).floor() == old(self).floor(),
            final(self).phase_spec() == old(self).phase_spec(),
            final(self).active_spec() == old(self).active_spec(),
            final(self).mass_spec() == old(self).mass_spec(),
            final(self).queue() == old(self).queue(),
            final(self).map() == old(self).map(),
            final(self).turn_spec() == old(self).turn_spec(),
            final(self).frightened() == old(self).frightened(),
            final(self).rules_spec() == old(self).rules_spec(),
    {
        let ghost o = *self;
        let mut k: usize = 0;
        while k < self.player_mass.len()
            invariant
                old(self).kept_setup(&*self),
                self.inv(),
                k <= self.player_mass@.len(),
                same_places(o.actors@, self.actors@),
                self.items == o.items,
                self.phase == o.phase,
                self.active == o.active,
                self.player_mass == o.player_mass,
                self.schedule == o.schedule,
                self.grid == o.grid,
                self.player_turn == o.player_turn,
                self.terrified == o.terrified,
                self.rules == o.rules,
                self.live(root),
            decreases self.player_mass@.len() - k,
        {
            let id = self.player_mass[k];
            let ghost b = self.actors@;
            match self.actors.get_mut(id) {
                Some(a) => {
                    if a.slime > 0 {
                        a.slime = 1;
                    }
                },
                None => {},
            }
            proof {
                assert(same_places(b, self.actors@));
                lemma_occupancy_same_places(self.grid, b, self.actors@, self.actor_at@, self.items@, self.item_at@);
                assert(same_places(o.actors@, self.actors@));
            }
            k = k + 1;
        }
        self.refresh_slime_tree(root);
        let deepest = match &self.drag_cache {
            Some(t) => t.deepest(),
            None => Vec::new(),
        };
        let mut d: usize = 0;
        while d < deepest.len()
            invariant
                old(self).kept_setup(&*self),
                self.inv(),
                d <= deepest@.len(),
                same_places(o.actors@, self.actors@),
                self.items == o.items,
                self.phase == o.phase,
                self.active == o.active,
                self.player_mass == o.player_mass,
                self.schedule == o.schedule,
                self.grid == o.grid,
                self.player_turn == o.player_turn,
                self.terrified == o.terrified,
                self.rules == o.rules,
                self.drag_cache is Some,
                forall|l: int| 0 <= l < deepest@.len() ==> #[trigger] deepest@[l] < self.drag_cache->0.nodes@.len(),
            decreases deepest@.len() - d,
        {
            let chain = match &self.drag_cache {
                Some(t) => t.chain(deepest[d]),
                None => Vec::new(),
            };
            let mut c: usize = 0;
            while c < chain.len()
                invariant
                    old(self).kept_setup(&*self),
                    self.inv(),
                    c <= chain@.len(),
                    same_places(o.actors@, self.actors@),
                    self.items == o.items,
                    self.phase == o.phase,
                    self.active == o.active,
                    self.player_mass == o.player_mass,
                    self.schedule == o.schedule,
                    self.grid == o.grid,
                    self.player_turn == o.player_turn,
                    self.terrified == o.terrified,
                    self.rules == o.rules,
                    self.drag_cache is Some,
                    forall|l: int| 0 <= l < deepest@.len() ==> #[trigger] deepest@[l] < self.drag_cache->0.nodes@.len(),
                decreases chain@.len() - c,
            {
                let ghost b = self.actors@;
                match self.actors.get_mut(chain[c]) {
                    Some(a) => {
                        a.slime = 2;
                    },
                    None => {},
                }
                proof {
                    assert(same_places(b, self.actors@));
                    lemma_occupancy_same_places(self.grid, b, self.actors@, self.actor_at@, self.items@, self.item_at@);
                    assert(same_places(o.actors@, self.actors@));
                }
                c = c + 1;
            }
            d = d + 1;
        }
    }

    /// The chain that will actually move: one deepest tail, chosen
    /// uniformly, mover first.
    fn drag_path(&mut self, root: ActorId) -> (r: Vec<ActorId>)
        requires
            old(self).inv(),
            old(self).live(root),
        ensures
            final(self).inv(),
            old(self).kept_setup(&*final(self)),
            *final(self) == (Sim { rng: final(self).rng, drag_cache: final(self).drag_cache, ..*old(self) }),
            r@ == seq![root] || (final(self).drag_cache matches Some(t) && exists|i: int|
                0 <= i < t.nodes@.len() && (#[trigger] t.nodes@[i]).dist == t.max_depth && r@ == player::chain_spec(
                    t.nodes@,
                    i,
                )),
    {
        self.refresh_slime_tree(root);
        let deepest = match &self.drag_cache {
            Some(t) => t.deepest(),
            None => Vec::new(),
        };
        let ghost o = *self;
        let chosen = self.pick(deepest.as_slice());
        match chosen {
            Some(i) => {
                proof {
                    let k = choose|k: int| 0 <= k < deepest@.len() && deepest@[k] == i;
                    assert(deepest@[k] == i);
                }
                match &self.drag_cache {
                    Some(t) => t.chain(i),
                    None => {
                        let mut v: Vec<ActorId> = Vec::new();
                        v.push(root);
                        v
                    },
                }
            },
            None => {
                let mut v: Vec<ActorId> = Vec::new();
                v.push(root);
                v
            },
        }
    }

    /// Every cytoplasm on the nearest ring of the mass that has any,
    /// spreading from `from` through slimed neighbours; `from` itself is
    /// the first ring.
    fn nearest_cytoplasm(&self, from: ActorId) -> (r: Vec<ActorId>)
        requires
            self.inv(),
            self.live(from),
        ensures
            forall|k: int| 0 <= k < r@.len() ==> self.live(#[trigger] r@[k]) && self.actor(r@[k]).kind
                == Kind::Cytoplasm,
            self.actor(from).kind == Kind::Cytoplasm ==> r@ == seq![from],
    {
        let cap = self.actors.capacity();
        let mut seen: Vec<bool> = repeat(false, cap);
        seen.set(from.raw(), true);
        let mut ring: Vec<ActorId> = Vec::new();
        ring.push(from);
        proof {
            self.lemma_live_on_map(from);
            self.grid.lemma_wf();
        }
        loop
            invariant
                self.inv(),
                seen@.len() == cap,
                cap == self.arena()@.len(),
                1 <= ring@.len(),
                forall|k: int| 0 <= k < ring@.len() ==> self.live(#[trigger] ring@[k]),
                self.actor(from).kind == Kind::Cytoplasm ==> ring@ == seq![from],
            decreases unseen(seen@),
        {
            let mut found: Vec<ActorId> = Vec::new();
            let mut k: usize = 0;
            while k < ring.len()
                invariant
                    self.inv(),
                    k <= ring@.len(),
                    found@.len() <= k,
                    forall|j: int| 0 <= j < ring@.len() ==> self.live(#[trigger] ring@[j]),
                    forall|j: int| 0 <= j < found@.len() ==> self.live(#[trigger] found@[j]) && self.actor(
                        found@[j],
                    ).kind == Kind::Cytoplasm,
                    self.actor(from).kind == Kind::Cytoplasm && ring@ == seq![from] && k == 1 ==> found@ == seq![from],
                decreases ring@.len() - k,
            {
                let id = ring[k];
                let is_cyto = match self.actors.get(id) {
                    Some(a) => a.kind == Kind::Cytoplasm,
                    None => false,
                };
                if is_cyto {
                    found.push(id);
                }
                k = k + 1;
            }
            if found.len() > 0 {
                return found;
            }
            let ghost unseen0 = unseen(seen@);
            proof {
                lemma_count_le(seen@.len(), |i: nat| i < seen@.len() && !seen@[i as int]);
            }
            let mut next: Vec<ActorId> = Vec::new();
            let mut k: usize = 0;
            while k < ring.len()
                invariant
                    self.inv(),
                    k <= ring@.len(),
                    seen@.len() == cap,
                    cap == self.arena()@.len(),
                        unseen0 <= cap,
                    unseen(seen@) + next@.len() <= unseen0,
                    forall|j: int| 0 <= j < ring@.len() ==> self.live(#[trigger] ring@[j]),
                    forall|j: int| 0 <= j < next@.len() ==> self.live(#[trigger] next@[j]),
                decreases ring@.len() - k,
            {
                let pos = match self.actors.get(ring[k]) {
                    Some(a) => a.pos,
                    None => {
                        k = k + 1;
                        continue;
                    },
                };
                let around = self.grid.adjacent(pos);
                let mut j: usize = 0;
                while j < around.len()
                    invariant
                        self.inv(),
                        j <= around@.len(),
                        seen@.len() == cap,
                        cap == self.arena()@.len(),
                                unseen0 <= cap,
                        unseen(seen@) + next@.len() <= unseen0,
                        forall|m: int| 0 <= m < next@.len() ==> self.live(#[trigger] next@[m]),
                    decreases around@.len() - j,
                {
                    let cell = around[j];
                    j = j + 1;
                    let other = match self.actor_at(cell) {
                        Some(o) => o,
                        None => {
                            continue;
                        },
                    };
                    proof {
                        self.lemma_occupant_live(cell);
                    }
                    let slimed = match self.actors.get(other) {
                        Some(a) => a.slime > 0,
                        None => false,
                    };
                    let i = other.raw();
                    if slimed && !seen[i] {
                        let ghost before = seen@;
                        seen.set(i, true);
                        proof {
                            let f = |x: nat| x < before.len() && !before[x as int];
                            let g = |x: nat| x < seen@.len() && !seen@[x as int];
                            assert(f(i as nat));
                            assert(!g(i as nat));
                            assert forall|x: nat| x < cap && x != i implies #[trigger] g(x) == f(x) by {}
                            lemma_count_drop(cap as nat, f, g, i as nat);
                        }
                        next.push(other);
                    }
                }
                k = k + 1;
            }
            if next.len() == 0 {
                return Vec::new();
            }
            proof {
                lemma_count_le(seen@.len(), |i: nat| i < seen@.len() && !seen@[i as int]);
            }
            ring = next;
        }
    }

    /// Change how long an actor waits between turns; nothing else moves.
    fn set_delay(&mut self, id: ActorId, delay: i32)
        requires
            old(self).inv(),
        ensures
            final(self).inv(),
            old(self).kept_setup(&*final(self)),
            *final(self) == (Sim { actors: final(self).actors, ..*old(self) }),
            same_bodies(old(self).arena()@, final(self).arena()@),
            !old(self).live(id) ==> *final(self) == *old(self),
            old(self).live(id) ==> final(self).arena()@ == old(self).arena()@.update(
                id@ as int,
                Some(actors::Actor { delay, ..old(self).actor(id) }),
            ),
            final(self).fuel_m() == old(self).fuel_m(),
            final(self).fuel_f() == old(self).fuel_f(),
    {
        if !self.actors.contains(id) {
            return ;
        }
        let ghost b = self.actors@;
        match self.actors.get_mut(id) {
            Some(a) => {
                a.delay = delay;
            },
            None => {},
        }
        proof {
            assert(same_bodies(b, self.actors@));
            lemma_occupancy_same_bodies(self.grid, b, self.actors@, self.actor_at@, self.items@, self.item_at@);
            old(self).lemma_fuel_same(&*self);
        }
    }

    /// Pin an actor against the drag, or free it; nothing else moves.
    pub fn set_anchor(&mut self, id: ActorId, anchor: bool)
        requires
            old(self).inv(),
        ensures
            final(self).inv(),
            old(self).kept_setup(&*final(self)),
            old(self).arena_only(&*final(self)),
            !old(self).live(id) ==> *final(self) == *old(self),
            old(self).live(id) ==> final(self).arena()@ == old(self).arena()@.update(
                id@ as int,
                Some(actors::Actor { anchor, ..old(self).actor(id) }),
            ),
    {
        if !self.actors.contains(id) {
            return ;
        }
        let ghost b = self.actors@;
        match self.actors.get_mut(id) {
            Some(a) => {
                a.anchor = anchor;
            },
            None => {},
        }
        proof {
            assert(same_spots(b, self.actors@));
            lemma_occupancy_same_spots(self.grid, b, self.actors@, self.actor_at@, self.items@, self.item_at@);
        }
    }

    /// A route that may cut through unarmoured humans, which is how the
    /// gravity core reaches organelles standing behind a crowd.
    pub(crate) fn path_ignoring_militia(&self, from: Coord, to: Coord) -> (r: Option<Vec<Coord>>)
        requires
            self.inv(),
        ensures
            r matches Some(p) ==> self.route_ok(p@, from, seq![to], Passable::IgnoringMilitia),
    {
        let targets: Vec<Coord> = vec![to];
        let mut paths = self.shortest_paths_to(from, targets.as_slice(), Passable::IgnoringMilitia);
        proof {
            assert(targets@ == seq![to]);
        }
        if paths.len() == 0 {
            None
        } else {
            let p = paths.remove(0);
            proof {
                assert(self.route_ok(p@, from, targets@, Passable::IgnoringMilitia));
            }
            Some(p)
        }
    }

    /// Whether a gravity core at work may haul `other` toward `toward`: any
    /// other organelle within reach of that cell with a route to it.
    pub closed spec fn pull_ok(&self, core: ActorId, toward: Coord, other: ActorId) -> bool {
        &&& other != core
        &&& self.live(other)
        &&& actors::is_organelle(self.actor(other).kind)
        &&& taxi_spec(self.actor(other).pos, toward) <= GRAVITY_RANGE
        &&& exists|p: Seq<Coord>| self.route_ok(p, self.actor(other).pos, seq![toward], Passable::IgnoringMilitia)
    }

    /// Tests [`Sim::pull_ok`] by searching for the route; a candidate the
    /// search finds no route for is turned down.
    fn pull_ok_at(&self, core: ActorId, toward: Coord, other: ActorId) -> (b: bool)
        requires
            self.inv(),
        ensures
            b ==> self.pull_ok(core, toward, other),
    {
        if other == core {
            return false;
        }
        let pos = match self.actors.get(other) {
            Some(a) => {
                if !actors::is_organelle(a.kind) || !within(a.pos, toward, GRAVITY_RANGE) {
                    return false;
                }
                a.pos
            },
            None => {
                return false;
            },
        };
        self.path_ignoring_militia(pos, toward).is_some()
    }

    /// Ring-by-ring search outward from `from`, through cells that are not
    /// solid rock, for what a gravity core may haul toward `toward`: the
    /// whole first ring that holds any.
    fn pullable(&self, core: ActorId, from: Coord, toward: Coord) -> (r: Vec<ActorId>)
        requires
            self.inv(),
        ensures
            forall|k: int| 0 <= k < r@.len() ==> self.pull_ok(core, toward, #[trigger] r@[k]),
            r@.len() <= i32::MAX,
    {
        let w = self.grid.width();
        let h = self.grid.height();
        let cells = (w * h) as usize;
        let mut seen: Vec<bool> = repeat(false, cells);
        match self.cell_index(from) {
            Some(i) => {
                seen.set(i, true);
            },
            None => {},
        }
        let mut ring: Vec<Coord> = Vec::new();
        ring.push(from);
        loop
            invariant
                self.inv(),
                seen@.len() == cells,
                cells == self.cells(),
                cells <= i32::MAX,
                1 <= ring@.len() <= i32::MAX,
            decreases unseen(seen@),
        {
            let mut found: Vec<ActorId> = Vec::new();
            let mut k: usize = 0;
            while k < ring.len()
                invariant
                    self.inv(),
                    k <= ring@.len(),
                    found@.len() <= k,
                    forall|j: int| 0 <= j < found@.len() ==> self.pull_ok(core, toward, #[trigger] found@[j]),
                decreases ring@.len() - k,
            {
                match self.actor_at(ring[k]) {
                    Some(a) => {
                        if self.pull_ok_at(core, toward, a) {
                            found.push(a);
                        }
                    },
                    None => {},
                }
                k = k + 1;
            }
            if found.len() > 0 {
                return found;
            }
            let next = self.expand_ring(&ring, &mut seen);
            if next.len() == 0 {
                return Vec::new();
            }
            ring = next;
        }
    }

    /// Flow the mass one cell: the mover steps onto `dest`, and one chain of
    /// organelles behind it shuffles up, each into the cell the one before
    /// it left. Returns whether the mover stepped.
    pub(crate) fn move_organelle(&mut self, mover: ActorId, dest: Coord) -> (moved: bool)
        requires
            old(self).inv(),
        ensures
            final(self).inv(),
            old(self).kept_setup(&*final(self)),
            moved == (old(self).map().spec_in_bounds(dest) && old(self).live(mover)
                && old(self).map().spec_cell(dest).walkable),
            moved ==> final(self).live(mover) && final(self).actor(mover).pos == dest,
            !moved ==> final(self).arena() == old(self).arena() && final(self).map() == old(self).map(),
            same_kinds(old(self).arena()@, final(self).arena()@),
            final(self).floor() == old(self).floor(),
            final(self).mass_spec() == old(self).mass_spec(),
            final(self).phase_spec() == old(self).phase_spec(),
            final(self).fuel_m() == old(self).fuel_m(),
            final(self).fuel_f() == old(self).fuel_f(),
    {
        if !self.grid.in_bounds(dest) || !self.actors.contains(mover) {
            return false;
        }
        let path = self.drag_path(mover);
        let mut vacated = match self.actors.get(mover) {
            Some(a) => a.pos,
            None => {
                return false;
            },
        };
        if !self.set_actor_position(mover, dest) {
            return false;
        }
        let mut k: usize = 1;
        while k < path.len()
            invariant
                old(self).kept_setup(&*self),
                self.inv(),
                same_kinds(old(self).arena()@, self.arena()@),
                self.floor() == old(self).floor(),
                self.mass_spec() == old(self).mass_spec(),
                self.phase_spec() == old(self).phase_spec(),
                self.live(mover),
                self.actor(mover).pos == dest,
            decreases path@.len() - k,
        {
            let id = path[k];
            k = k + 1;
            if id == mover {
                continue;
            }
            let buffer = match self.actors.get(id) {
                Some(a) => a.pos,
                None => {
                    continue;
                },
            };
            let ghost b = *self;
            self.set_actor_position(id, vacated);
            proof {
                if id@ == mover@ {
                    ActorId::lemma_view_injective(id, mover);
                }
                assert(self.actor(mover) == b.actor(mover));
            }
            vacated = buffer;
        }
        proof {
            old(self).lemma_fuel_same(&*self);
        }
        true
    }

    // -- nucleus control ----------------------------------------------------------

    /// Hand control to `id` and put every nucleus back on the clock together,
    /// all at the active one's speed: that is what makes "only one nucleus
    /// acts per turn" true however many you carry.
    pub fn set_active_nucleus(&mut self, id: ActorId)
        requires
            old(self).inv(),
        ensures
            final(self).inv(),
            old(self).kept_setup(&*final(self)),
            !old(self).live(id) ==> *final(self) == *old(self),
            old(self).live(id) ==> final(self).active_spec() == Some(id),
            same_places(old(self).arena()@, final(self).arena()@),
            final(self).frightened() == old(self).frightened(),
            final(self).rules_spec() == old(self).rules_spec(),
            final(self).floor() == old(self).floor(),
            final(self).map() == old(self).map(),
            final(self).turn_spec() == old(self).turn_spec(),
            final(self).phase_spec() == old(self).phase_spec(),
            final(self).mass_spec() == old(self).mass_spec(),
            final(self).queue().spec_time() == old(self).queue().spec_time(),
    {
        let delay = match self.actors.get(id) {
            Some(a) => a.delay,
            None => {
                return ;
            },
        };
        self.active = Some(id);
        self.schedule.remove(id);
        self.schedule.add(id, delay);
        let ghost o = *self;
        let mut k: usize = 0;
        while k < self.player_mass.len()
            invariant
                old(self).kept_setup(&*self),
                self.inv(),
                k <= self.player_mass@.len(),
                *self == (Sim { schedule: self.schedule, ..o }),
                self.schedule.spec_time() == o.schedule.spec_time(),
            decreases self.player_mass@.len() - k,
        {
            let n = self.player_mass[k];
            if n != id {
                let nucleus = match self.actors.get(n) {
                    Some(a) => is_nucleus_family(a.kind),
                    None => false,
                };
                if nucleus {
                    self.schedule.remove(n);
                    self.schedule.add(n, delay);
                }
            }
            k = k + 1;
        }
        self.color_moving_slime(id);
    }

    /// The nucleus under your control, as a specification value.
    pub closed spec fn active_spec(&self) -> Option<ActorId> {
        self.active
    }

    /// Step through the nuclei in acquisition order, wrapping at both ends.
    /// Free, but it does put every nucleus back on the clock.
    pub fn next_nucleus(&mut self, shift: i32)
        requires
            old(self).inv(),
        ensures
            final(self).inv(),
            old(self).kept_setup(&*final(self)),
            same_places(old(self).arena()@, final(self).arena()@),
            final(self).floor() == old(self).floor(),
            final(self).map() == old(self).map(),
            final(self).turn_spec() == old(self).turn_spec(),
            final(self).phase_spec() == old(self).phase_spec(),
            final(self).queue().spec_time() == old(self).queue().spec_time(),
            old(self).nuclei_spec().len() == 0 ==> *final(self) == *old(self),
            0 < old(self).nuclei_spec().len() <= i32::MAX ==> final(self).active_spec() == Some(
                old(self).nuclei_spec()[(old(self).nucleus_rank() + shift) % (old(self).nuclei_spec().len() as int)],
            ),
    {
        let ghost o = *self;
        let ghost pred = |id: ActorId| o.live(id) && is_nucleus_family(o.actor(id).kind);
        let mut nuclei: Vec<ActorId> = Vec::new();
        let mut k: usize = 0;
        while k < self.player_mass.len()
            invariant
                old(self).kept_setup(&*self),
                *self == o,
                pred == (|id: ActorId| o.live(id) && is_nucleus_family(o.actor(id).kind)),
                k <= self.player_mass@.len(),
                nuclei@ == self.player_mass@.take(k as int).filter(pred),
            decreases self.player_mass@.len() - k,
        {
            let n = self.player_mass[k];
            let nucleus = match self.actors.get(n) {
                Some(a) => is_nucleus_family(a.kind),
                None => false,
            };
            proof {
                assert(self.player_mass@.take(k + 1) == self.player_mass@.take(k as int).push(n));
                self.player_mass@.take(k as int).lemma_filter_push(n, pred);
            }
            if nucleus {
                nuclei.push(n);
            }
            k = k + 1;
        }
        proof {
            assert(self.player_mass@.take(k as int) == self.player_mass@);
            assert(nuclei@ == o.nuclei_spec());
        }
        let len = nuclei.len();
        if len == 0 || len > 2147483647usize {
            return ;
        }
        let mut current: i64 = -1;
        match self.active {
            Some(a) => {
                let mut k: usize = 0;
                while k < len
                    invariant_except_break
                        old(self).kept_setup(&*self),
                        current == -1,
                        forall|j: int| 0 <= j < k ==> nuclei@[j] != a,
                    invariant
                        old(self).kept_setup(&*self),
                        k <= len,
                        len == nuclei@.len(),
                        len <= 2147483647,
                        -1 <= current < len,
                    ensures
                        -1 <= current < len,
                        current == (match first_index(nuclei@, a) {
                            Some(i) => i,
                            None => -1,
                        }),
                    decreases len - k,
                {
                    if nuclei[k] == a {
                        current = k as i64;
                        proof {
                            lemma_first_index(nuclei@, a);
                            if first_index(nuclei@, a) is None {
                                assert(nuclei@.contains(a)) by {
                                    assert(nuclei@[k as int] == a);
                                }
                            }
                            let i = first_index(nuclei@, a)->0;
                            if i < k {
                                assert(nuclei@[i] != a);
                            }
                            if i > k {
                                assert(nuclei@[k as int] != a);
                            }
                        }
                        break;
                    }
                    k = k + 1;
                }
                proof {
                    lemma_first_index(nuclei@, a);
                }
            },
            None => {},
        }
        assert(current == o.nucleus_rank());
        let v: i64 = current + shift as i64;
        let n: i64 = len as i64;
        let index: i64 = if v >= 0 {
            v % n
        } else {
            let r = (-v) % n;
            if r == 0 {
                0
            } else {
                n - r
            }
        };
        proof {
            let vi: int = current + shift;
            let ni: int = n as int;
            if v < 0 {
                lemma_negative_mod(vi, ni);
            }
            assert(o.live(nuclei@[index as int])) by {
                assert(nuclei@.contains(nuclei@[index as int]));
                assert(pred(nuclei@[index as int]));
            }
        }
        self.set_active_nucleus(nuclei[index as usize]);
    }

    /// Where the active nucleus stands among [`Sim::nuclei_spec`], or `-1`
    /// when it is not among them.
    pub closed spec fn nucleus_rank(&self) -> int {
        match self.active {
            Some(a) => match first_index(self.nuclei_spec(), a) {
                Some(i) => i,
                None => -1,
            },
            None => -1,
        }
    }

    // -- routes -------------------------------------------------------------------

    /// Whether a route of the given kind may pass through `c`.
    pub closed spec fn passable_spec(&self, p: Passable, c: Coord) -> bool {
        match p {
            Passable::Walkable => self.grid.spec_cell(c).walkable,
            Passable::IgnoringMilitia => self.grid.spec_cell(c).walkable || (self.occupant(c) matches Some(a)
                && self.live(a) && actors::is_militia_family(self.actor(a).kind) && !actors::is_tank_family(
                self.actor(a).kind,
            )),
            Passable::Hauling(anchor) => self.grid.spec_cell(c).walkable || (self.occupant(c) matches Some(a)
                && self.live(a) && self.actor(a).slime > 0 && self.actor(a).kind != Kind::Extractor && !(
            actors::is_dissolving(self.actor(a).kind) && taxi_spec(self.actor(a).pos, anchor) == 1)),
            Passable::Body => self.occupant(c) matches Some(a) && self.live(a) && actors::is_organelle(
                self.actor(a).kind,
            ),
        }
    }

    /// The executable form of [`Sim::passable_spec`].
    fn passable_at(&self, p: Passable, c: Coord) -> (b: bool)
        requires
            self.inv(),
        ensures
            b == self.passable_spec(p, c),
    {
        match p {
            Passable::Walkable => self.grid.walkable(c),
            Passable::IgnoringMilitia => {
                self.grid.walkable(c) || match self.actor_at(c) {
                    Some(a) => match self.actors.get(a) {
                        Some(x) => actors::is_militia_family(x.kind) && !actors::is_tank_family(x.kind),
                        None => false,
                    },
                    None => false,
                }
            },
            Passable::Hauling(anchor) => {
                self.grid.walkable(c) || match self.actor_at(c) {
                    Some(a) => match self.actors.get(a) {
                        Some(x) => x.slime > 0 && x.kind != Kind::Extractor && !(actors::is_dissolving(x.kind) && touching(
                            x.pos,
                            anchor,
                        )),
                        None => false,
                    },
                    None => false,
                }
            },
            Passable::Body => match self.actor_at(c) {
                Some(a) => match self.actors.get(a) {
                    Some(x) => actors::is_organelle(x.kind),
                    None => false,
                },
                None => false,
            },
        }
    }

    /// `p` is a route from `from` to one of `targets`: every step crosses one
    /// edge of the map and every cell strictly between the ends may be passed
    /// through.
    pub closed spec fn route_ok(&self, p: Seq<Coord>, from: Coord, targets: Seq<Coord>, how: Passable) -> bool {
        &&& p.len() >= 1
        &&& p[0] == from
        &&& targets.contains(p[p.len() - 1])
        &&& forall|j: int| 0 < j < p.len() ==> taxi_spec(#[trigger] p[j - 1], p[j]) == 1
        &&& forall|j: int| 0 < j < p.len() - 1 ==> self.passable_spec(how, #[trigger] p[j])
    }

    /// The search's bookkeeping agrees with itself: the start is entered at
    /// distance zero, every other entered cell links back to an entered
    /// neighbour one step nearer (which is the start or passable), and an
    /// unentered cell has no distance.
    spec fn links_ok(&self, came: Seq<usize>, dist: Seq<i32>, start: int, how: Passable) -> bool {
        &&& came.len() == self.cells()
        &&& dist.len() == self.cells()
        &&& 0 <= start < self.cells()
        &&& came[start] == start
        &&& dist[start] == 0
        &&& forall|i: int| 0 <= i < came.len() && #[trigger] came[i] == usize::MAX ==> dist[i] == i32::MAX
        &&& forall|i: int| 0 <= i < came.len() && #[trigger] came[i] != usize::MAX ==> dist[i] >= 0
        &&& forall|i: int|
            0 <= i < came.len() && came[i] != usize::MAX && i != start ==> #[trigger] self.link_at(
                came,
                dist,
                start,
                how,
                i,
            )
    }

    /// Entered cell `i` links back to an entered neighbour one step nearer,
    /// which is the start or may be passed through.
    spec fn link_at(&self, came: Seq<usize>, dist: Seq<i32>, start: int, how: Passable, i: int) -> bool {
        let w = self.grid.spec_width();
        let p = came[i] as int;
        &&& 0 <= p < came.len()
        &&& came[p] != usize::MAX
        &&& dist[i] == dist[p] + 1
        &&& taxi_spec(coord_of(w, i), coord_of(w, p)) == 1
        &&& (p == start || self.passable_spec(how, coord_of(w, p)))
    }

    /// Everything queued is an entered, in-bounds cell that is the start or
    /// may be passed through.
    spec fn queue_ok(&self, queue: Seq<Coord>, came: Seq<usize>, start: int, how: Passable) -> bool {
        forall|j: int| 0 <= j < queue.len() ==> {
            let q = #[trigger] queue[j];
            &&& self.grid.spec_in_bounds(q)
            &&& came[flat_index(self.grid.spec_width(), q)] != usize::MAX
            &&& (flat_index(self.grid.spec_width(), q) == start || self.passable_spec(how, q))
        }
    }

    /// One neighbour of the cell being expanded: enter it if it is new and is
    /// a target or may be passed through, recording how it was reached, and
    /// queue it if it may be passed through. Returns whether it was entered
    /// and whether it was queued.
    #[verifier::rlimit(60)]
    fn bfs_visit(
        &self,
        came: &mut Vec<usize>,
        dist: &mut Vec<i32>,
        queue: &mut VecDeque<Coord>,
        best: &mut i32,
        start: usize,
        here: usize,
        at: Coord,
        next: Coord,
        targets: &[Coord],
        how: Passable,
    ) -> (r: (bool, bool))
        requires
            self.inv(),
            self.links_ok(old(came)@, old(dist)@, start as int, how),
            self.queue_ok(old(queue)@, old(came)@, start as int, how),
            self.grid.spec_in_bounds(at),
            here as int == flat_index(self.grid.spec_width(), at),
            old(came)@[here as int] != usize::MAX,
            here == start || self.passable_spec(how, at),
            old(dist)@[here as int] < *old(best),
            self.grid.spec_in_bounds(next),
            taxi_spec(at, next) == 1,
        ensures
            self.links_ok(final(came)@, final(dist)@, start as int, how),
            self.queue_ok(final(queue)@, final(came)@, start as int, how),
            final(came)@[here as int] != usize::MAX,
            final(dist)@[here as int] == old(dist)@[here as int],
            final(dist)@[here as int] < *final(best),
            count_where(self.cells() as nat, |i: nat| i < final(came)@.len() && final(came)@[i as int] == usize::MAX) + (
            if r.0 {
                1nat
            } else {
                0nat
            }) == count_where(self.cells() as nat, |i: nat| i < old(came)@.len() && old(came)@[i as int] == usize::MAX),
            final(queue)@.len() == old(queue)@.len() + (if r.1 {
                1nat
            } else {
                0nat
            }),
            r.1 ==> r.0,
            r.0 == (old(came)@[flat_index(self.width(), next)] == usize::MAX && (self.passable_spec(how, next)
                || targets@.contains(next))),
            r.1 == (r.0 && self.passable_spec(how, next)),
            r.0 ==> final(came)@ == old(came)@.update(flat_index(self.width(), next), here) && final(dist)@ == old(
                dist,
            )@.update(flat_index(self.width(), next), (old(dist)@[here as int] + 1) as i32),
            !r.0 ==> final(came)@ == old(came)@ && final(dist)@ == old(dist)@,
            r.1 ==> final(queue)@ == old(queue)@.push(next),
            !r.1 ==> final(queue)@ == old(queue)@,
            *final(best) == (if r.0 && targets@.contains(next) && old(dist)@[here as int] + 1 < *old(best) {
                (old(dist)@[here as int] + 1) as i32
            } else {
                *old(best)
            }),
    {
        let w = self.grid.width();
        let h = self.grid.height();
        let i = match self.cell_index(next) {
            Some(i) => i,
            None => {
                return (false, false);
            },
        };
        if came[i] != usize::MAX {
            return (false, false);
        }
        let open = self.passable_at(how, next);
        let mut target = false;
        let mut t: usize = 0;
        while t < targets.len()
            invariant
                t <= targets@.len(),
                target ==> targets@.contains(next),
                !target ==> forall|q: int| 0 <= q < t ==> targets@[q] != next,
            decreases targets@.len() - t,
        {
            if targets[t] == next {
                proof {
                    assert(targets@[t as int] == next);
                }
                target = true;
            }
            t = t + 1;
        }
        if !open && !target {
            return (false, false);
        }
        let ghost before = came@;
        let ghost dbefore = dist@;
        proof {
            self.grid.lemma_wf();
            lemma_flat_index(w as int, h as int, next);
            lemma_flat_index(w as int, h as int, at);
            assert(i != here);
        }
        let nd: i32 = dist[here] + 1;
        came.set(i, here);
        dist.set(i, nd);
        proof {
            let cells = self.cells() as nat;
            let f = |x: nat| x < before.len() && before[x as int] == usize::MAX;
            let g = |x: nat| x < came@.len() && came@[x as int] == usize::MAX;
            assert(f(i as nat));
            assert(!g(i as nat));
            assert forall|x: nat| x < cells && x != i implies #[trigger] g(x) == f(x) by {}
            lemma_count_drop(cells, f, g, i as nat);
            let wi = w as int;
            assert(coord_of(wi, i as int) == next);
            assert(coord_of(wi, here as int) == at);
            assert forall|k: int|
                0 <= k < came@.len() && came@[k] != usize::MAX && k != start as int implies #[trigger] self.link_at(
                came@,
                dist@,
                start as int,
                how,
                k,
            ) by {
                if k != i as int {
                    assert(before[k] != usize::MAX);
                    assert(self.link_at(before, dbefore, start as int, how, k));
                    let p = before[k] as int;
                    assert(p != i as int);
                }
            }
            assert(self.links_ok(came@, dist@, start as int, how));
        }
        proof {
            assert forall|j: int| 0 <= j < queue@.len() implies {
                let q = #[trigger] queue@[j];
                &&& self.grid.spec_in_bounds(q)
                &&& came@[flat_index(self.grid.spec_width(), q)] != usize::MAX
                &&& (flat_index(self.grid.spec_width(), q) == start || self.passable_spec(how, q))
            } by {
                let q = queue@[j];
                lemma_flat_index(w as int, h as int, q);
                assert(before[flat_index(self.grid.spec_width(), q)] != usize::MAX);
            }
        }
        if target && nd < *best {
            *best = nd;
        }
        if open {
            let ghost qb = queue@;
            queue.push_back(next);
            proof {
                assert forall|j: int| 0 <= j < queue@.len() implies {
                    let q = #[trigger] queue@[j];
                    &&& self.grid.spec_in_bounds(q)
                    &&& came@[flat_index(self.grid.spec_width(), q)] != usize::MAX
                    &&& (flat_index(self.grid.spec_width(), q) == start || self.passable_spec(how, q))
                } by {
                    if j < queue@.len() - 1 {
                        assert(queue@[j] == qb[j]);
                    }
                }
            }
            (true, true)
        } else {
            (true, false)
        }
    }

    /// Walk the links back from entered cell `end` to the start, and return
    /// the route the other way round.
    fn rebuild_route(
        &self,
        came: &Vec<usize>,
        dist: &Vec<i32>,
        start: usize,
        how: Passable,
        end: usize,
        from: Coord,
    ) -> (p: Vec<Coord>)
        requires
            self.inv(),
            self.links_ok(came@, dist@, start as int, how),
            coord_of(self.grid.spec_width(), start as int) == from,
            end < came@.len(),
            came@[end as int] != usize::MAX,
        ensures
            p@.len() == dist@[end as int] + 1,
            p@[0] == from,
            p@[p@.len() - 1] == coord_of(self.grid.spec_width(), end as int),
            forall|j: int| 0 < j < p@.len() ==> taxi_spec(#[trigger] p@[j - 1], p@[j]) == 1,
            forall|j: int| 0 < j < p@.len() - 1 ==> self.passable_spec(how, #[trigger] p@[j]),
            forall|j: int| 0 <= j < p@.len() ==> self.grid.spec_in_bounds(#[trigger] p@[j]),
    {
        let w = self.grid.width();
        let h = self.grid.height();
        proof {
            self.grid.lemma_wf();
        }
        let mut rev: Vec<Coord> = Vec::new();
        proof {
            lemma_coord_of(w as int, h as int, end as int);
        }
        rev.push(coord_from_index(w, h, end));
        let mut cursor = end;
        while cursor != start
            invariant
                self.inv(),
                w == self.grid.spec_width(),
                h == self.grid.spec_height(),
                0 <= w,
                0 <= h,
                w * h <= i32::MAX,
                self.links_ok(came@, dist@, start as int, how),
                cursor < came@.len(),
                came@[cursor as int] != usize::MAX,
                rev@.len() >= 1,
                rev@[0] == coord_of(w as int, end as int),
                rev@[rev@.len() - 1] == coord_of(w as int, cursor as int),
                rev@.len() + dist@[cursor as int] == dist@[end as int] + 1,
                cursor != start && rev@.len() > 1 ==> self.passable_spec(how, rev@[rev@.len() - 1]),
                forall|j: int| 0 < j < rev@.len() ==> taxi_spec(#[trigger] rev@[j - 1], rev@[j]) == 1,
                forall|j: int| 0 < j < rev@.len() - 1 ==> self.passable_spec(how, #[trigger] rev@[j]),
                forall|j: int| 0 <= j < rev@.len() ==> self.grid.spec_in_bounds(#[trigger] rev@[j]),
            decreases dist@[cursor as int],
        {
            proof {
                assert(self.link_at(came@, dist@, start as int, how, cursor as int));
            }
            let parent = came[cursor];
            let ghost rb = rev@;
            proof {
                lemma_coord_of(w as int, h as int, parent as int);
            }
            rev.push(coord_from_index(w, h, parent));
            proof {
                assert forall|j: int| 0 < j < rev@.len() implies taxi_spec(#[trigger] rev@[j - 1], rev@[j]) == 1 by {
                    if j < rev@.len() - 1 {
                        assert(rev@[j] == rb[j] && rev@[j - 1] == rb[j - 1]);
                    }
                }
                assert forall|j: int| 0 < j < rev@.len() - 1 implies self.passable_spec(how, #[trigger] rev@[j]) by {
                    if j < rev@.len() - 2 {
                        assert(rev@[j] == rb[j]);
                    }
                }
                assert(dist@[parent as int] >= 0);
                assert forall|j: int| 0 <= j < rev@.len() implies self.grid.spec_in_bounds(#[trigger] rev@[j]) by {
                    if j < rev@.len() - 1 {
                        assert(rev@[j] == rb[j]);
                    }
                }
            }
            cursor = parent;
        }
        let n = rev.len();
        let mut p: Vec<Coord> = Vec::new();
        let mut i = n;
        while i > 0
            invariant
                i <= n,
                n == rev@.len(),
                p@.len() == n - i,
                forall|j: int| 0 <= j < p@.len() ==> #[trigger] p@[j] == rev@[n - 1 - j],
            decreases i,
        {
            i = i - 1;
            p.push(rev[i]);
        }
        proof {
            assert forall|j: int| 0 < j < p@.len() implies taxi_spec(#[trigger] p@[j - 1], p@[j]) == 1 by {
                assert(p@[j] == rev@[n - 1 - j] && p@[j - 1] == rev@[n - j]);
                let m = n - j;
                assert(0 < m < rev@.len());
                assert(taxi_spec(rev@[m - 1], rev@[m]) == 1);
            }
            assert forall|j: int| 0 < j < p@.len() - 1 implies self.passable_spec(how, #[trigger] p@[j]) by {
                assert(p@[j] == rev@[n - 1 - j]);
            }
            assert forall|j: int| 0 <= j < p@.len() implies self.grid.spec_in_bounds(#[trigger] p@[j]) by {
                assert(p@[j] == rev@[n - 1 - j]);
            }
        }
        p
    }

    /// A walk over the map from `from` to `c`, one step at a time, whose
    /// inner cells may all be passed through.
    pub closed spec fn trail(&self, q: Seq<Coord>, from: Coord, c: Coord, how: Passable) -> bool {
        &&& q.len() >= 1
        &&& q[0] == from
        &&& q[q.len() - 1] == c
        &&& forall|i: int| 0 <= i < q.len() ==> self.grid.spec_in_bounds(#[trigger] q[i])
        &&& forall|i: int| 0 < i < q.len() ==> taxi_spec(#[trigger] q[i - 1], q[i]) == 1
        &&& forall|i: int| 0 < i < q.len() - 1 ==> self.passable_spec(how, #[trigger] q[i])
    }

    /// Whether the search has entered `c`.
    spec fn seen_cell(&self, came: Seq<usize>, c: Coord) -> bool {
        came[flat_index(self.grid.spec_width(), c)] != usize::MAX
    }

    /// A cell the search may enter: one it may pass through, or a target.
    spec fn opens(&self, c: Coord, targets: Seq<Coord>, how: Passable) -> bool {
        self.passable_spec(how, c) || targets.contains(c)
    }

    /// Every enterable neighbour of `c` has been entered, at most one step
    /// further out than `c`.
    spec fn spread_from(&self, came: Seq<usize>, dist: Seq<i32>, c: Coord, targets: Seq<Coord>, how: Passable) -> bool {
        forall|n: Coord|
            self.grid.spec_in_bounds(n) && #[trigger] taxi_spec(c, n) == 1 && self.opens(n, targets, how) ==> self.seen_cell(
                came,
                n,
            ) && dist[flat_index(self.grid.spec_width(), n)] <= dist[flat_index(self.grid.spec_width(), c)] + 1
    }

    /// Every entered cell the search expands (the start, or one that may be
    /// passed through) fewer than `lim` steps out has been expanded.
    spec fn spread_below(&self, came: Seq<usize>, dist: Seq<i32>, start: int, targets: Seq<Coord>, how: Passable, lim: int) -> bool {
        forall|c: Coord|
            self.grid.spec_in_bounds(c) && #[trigger] self.seen_cell(came, c) && (flat_index(self.grid.spec_width(), c) == start
                || self.passable_spec(how, c)) && dist[flat_index(self.grid.spec_width(), c)] < lim ==> self.spread_from(
                came,
                dist,
                c,
                targets,
                how,
            )
    }

    /// Entering one fresh cell at step `v` keeps every entered cell entered
    /// at its step, every expansion done, and every expansion below `v`.
    proof fn lemma_visit_keeps(&self, c0: Seq<usize>, d0: Seq<i32>, c1: Seq<usize>, d1: Seq<i32>, i: int, start: int, targets: Seq<Coord>, how: Passable, v: int)
        requires
            self.inv(),
            c0.len() == self.cells(),
            d0.len() == c0.len(),
            0 <= i < c0.len(),
            c0[i] == usize::MAX,
            c1 == c0.update(i, c1[i]),
            c1[i] != usize::MAX,
            d1 == d0.update(i, d1[i]),
            d1[i] == v,
        ensures
            forall|c: Coord| self.grid.spec_in_bounds(c) && #[trigger] self.seen_cell(c0, c) ==> self.seen_cell(c1, c)
                && d1[flat_index(self.grid.spec_width(), c)] == d0[flat_index(self.grid.spec_width(), c)],
            forall|c: Coord|
                self.grid.spec_in_bounds(c) && self.seen_cell(c0, c) && #[trigger] self.spread_from(c0, d0, c, targets, how)
                    ==> self.spread_from(c1, d1, c, targets, how),
            forall|lim: int| lim <= v && #[trigger] self.spread_below(c0, d0, start, targets, how, lim) ==> self.spread_below(c1, d1, start, targets, how, lim),
    {
        let w = self.grid.spec_width();
        let h = self.grid.spec_height();
        self.grid.lemma_wf();
        assert forall|c: Coord| self.grid.spec_in_bounds(c) && #[trigger] self.seen_cell(c0, c) implies self.seen_cell(c1, c)
            && d1[flat_index(w, c)] == d0[flat_index(w, c)] by {
            lemma_flat_index(w, h, c);
        }
        assert forall|c: Coord|
            self.grid.spec_in_bounds(c) && self.seen_cell(c0, c) && #[trigger] self.spread_from(c0, d0, c, targets, how) implies self.spread_from(
            c1,
            d1,
            c,
            targets,
            how,
        ) by {
            lemma_flat_index(w, h, c);
            assert forall|n: Coord|
                self.grid.spec_in_bounds(n) && #[trigger] taxi_spec(c, n) == 1 && self.opens(n, targets, how) implies self.seen_cell(
                c1,
                n,
            ) && d1[flat_index(w, n)] <= d1[flat_index(w, c)] + 1 by {
                lemma_flat_index(w, h, n);
            }
        }
        assert forall|lim: int| lim <= v && #[trigger] self.spread_below(c0, d0, start, targets, how, lim) implies self.spread_below(
            c1,
            d1,
            start,
            targets,
            how,
            lim,
        ) by {
            assert forall|c: Coord|
                self.grid.spec_in_bounds(c) && #[trigger] self.seen_cell(c1, c) && (flat_index(w, c) == start || self.passable_spec(
                    how,
                    c,
                )) && d1[flat_index(w, c)] < lim implies self.spread_from(c1, d1, c, targets, how) by {
                lemma_flat_index(w, h, c);
                if flat_index(w, c) != i {
                    assert(self.seen_cell(c0, c));
                    assert(self.spread_from(c0, d0, c, targets, how));
                    assert forall|n: Coord|
                        self.grid.spec_in_bounds(n) && #[trigger] taxi_spec(c, n) == 1 && self.opens(n, targets, how) implies self.seen_cell(
                        c1,
                        n,
                    ) && d1[flat_index(w, n)] <= d1[flat_index(w, c)] + 1 by {
                        lemma_flat_index(w, h, n);
                    }
                }
            }
        }
    }

    /// Along a walk from the start, every cell up to the `i`th has been
    /// entered, no further out than its place on the walk, as long as every
    /// cell met before it was expanded.
    proof fn lemma_trail_seen(&self, came: Seq<usize>, dist: Seq<i32>, start: int, targets: Seq<Coord>, how: Passable, q: Seq<Coord>, from: Coord, c: Coord, lim: int, closed: bool, i: int)
        requires
            self.inv(),
            came.len() == self.cells(),
            dist.len() == came.len(),
            start == flat_index(self.grid.spec_width(), from),
            came[start] != usize::MAX,
            dist[start] == 0,
            self.trail(q, from, c, how),
            self.opens(c, targets, how),
            self.spread_below(came, dist, start, targets, how, lim),
            closed ==> forall|x: Coord|
                self.grid.spec_in_bounds(x) && #[trigger] self.seen_cell(came, x) && (flat_index(self.grid.spec_width(), x) == start
                    || self.passable_spec(how, x)) ==> dist[flat_index(self.grid.spec_width(), x)] < lim,
            0 <= i < q.len(),
            closed || i <= lim,
        ensures
            self.seen_cell(came, q[i]),
            dist[flat_index(self.grid.spec_width(), q[i])] <= i,
        decreases i,
    {
        if i > 0 {
            self.lemma_trail_seen(came, dist, start, targets, how, q, from, c, lim, closed, i - 1);
            let p = q[i - 1];
            assert(self.grid.spec_in_bounds(p));
            assert(taxi_spec(q[i - 1], q[i]) == 1);
            if i - 1 > 0 {
                assert(self.passable_spec(how, p));
            }
            assert(self.spread_from(came, dist, p, targets, how));
            assert(self.grid.spec_in_bounds(q[i]));
            if i < q.len() - 1 {
                assert(self.passable_spec(how, q[i]));
            }
            assert(self.opens(q[i], targets, how));
        }
    }

    /// Every shortest route from `from` to the nearest of `targets`, one per
    /// target at that distance, in target order. A target is reached even if
    /// it may not be passed through; the search stops widening once it is
    /// deeper than the nearest target found.
    #[verifier::rlimit(60)]
    pub(crate) fn shortest_paths_to(&self, from: Coord, targets: &[Coord], how: Passable) -> (r: Vec<Vec<Coord>>)
        requires
            self.inv(),
        ensures
            forall|k: int| 0 <= k < r@.len() ==> self.route_ok((#[trigger] r@[k])@, from, targets@, how),
            forall|k: int| 0 <= k < r@.len() ==> self.trail((#[trigger] r@[k])@, from, r@[k]@[r@[k]@.len() - 1], how),
            forall|k: int, l: int| 0 <= k < r@.len() && 0 <= l < r@.len() ==> (#[trigger] r@[k])@.len() == (#[trigger] r@[l])@.len(),
            r@.len() <= targets@.len(),
            !targets@.contains(from) && self.cells() < i32::MAX ==> (r@.len() > 0 <==> exists|q: Seq<Coord>, t: Coord|
                targets@.contains(t) && #[trigger] self.trail(q, from, t, how)),
            !targets@.contains(from) && r@.len() > 0 ==> forall|q: Seq<Coord>, t: Coord|
                targets@.contains(t) && #[trigger] self.trail(q, from, t, how) ==> r@[0]@.len() <= q.len(),
    {
        let w = self.grid.width();
        let h = self.grid.height();
        let start = match self.cell_index(from) {
            Some(i) => i,
            None => {
                proof {
                    assert forall|q: Seq<Coord>, t: Coord| targets@.contains(t) && #[trigger] self.trail(q, from, t, how) implies false by {
                        assert(self.grid.spec_in_bounds(q[0]));
                    }
                }
                return Vec::new();
            },
        };
        if targets.len() == 0 {
            return Vec::new();
        }
        let cells = (w * h) as usize;
        let mut came: Vec<usize> = repeat(usize::MAX, cells);
        let mut dist: Vec<i32> = repeat(i32::MAX, cells);
        came.set(start, start);
        dist.set(start, 0);
        let mut layer: VecDeque<Coord> = VecDeque::new();
        layer.push_back(from);
        let mut best: i32 = i32::MAX;
        let mut depth: i32 = 0;
        proof {
            self.grid.lemma_wf();
            lemma_flat_index(w as int, h as int, from);
            assert(self.links_ok(came@, dist@, start as int, how));
            assert(layer@ =~= seq![from]);
            lemma_unentered_one(came@, cells as nat, start as int);
            assert forall|c: Coord|
                self.grid.spec_in_bounds(c) && #[trigger] self.seen_cell(came@, c) && (flat_index(w as int, c) == start
                    || self.passable_spec(how, c)) && dist@[flat_index(w as int, c)] == 0 implies layer@.contains(c) by {
                lemma_flat_index(w as int, h as int, c);
                if flat_index(w as int, c) != start {
                    assert(came@[flat_index(w as int, c)] == usize::MAX);
                }
                assert(layer@[0] == from);
            }
            assert forall|c: Coord|
                self.grid.spec_in_bounds(c) && #[trigger] self.seen_cell(came@, c) && targets@.contains(c) && flat_index(
                    w as int,
                    c,
                ) != start implies best <= dist@[flat_index(w as int, c)] by {
                lemma_flat_index(w as int, h as int, c);
            }
            assert forall|c: Coord|
                self.grid.spec_in_bounds(c) && #[trigger] self.seen_cell(came@, c) && (flat_index(w as int, c) == start
                    || self.passable_spec(how, c)) && dist@[flat_index(w as int, c)] < 0 implies self.spread_from(
                came@,
                dist@,
                c,
                targets@,
                how,
            ) by {
                lemma_flat_index(w as int, h as int, c);
                assert(came@[flat_index(w as int, c)] != usize::MAX);
            }
        }
        while layer.len() > 0 && depth < best
            invariant
                self.inv(),
                w == self.grid.spec_width(),
                h == self.grid.spec_height(),
                cells == self.cells(),
                cells <= i32::MAX,
                self.grid.spec_in_bounds(from),
                start as int == flat_index(w as int, from),
                coord_of(w as int, start as int) == from,
                self.links_ok(came@, dist@, start as int, how),
                self.queue_ok(layer@, came@, start as int, how),
                0 <= depth,
                1 <= best,
                depth <= best,
                depth + (if layer@.len() > 0 { 1int } else { 0int }) + unentered(came@, cells as nat) <= cells,
                forall|i: int| 0 <= i < came@.len() && #[trigger] came@[i] != usize::MAX ==> dist@[i] <= depth,
                forall|k: int| 0 <= k < layer@.len() ==> dist@[flat_index(w as int, #[trigger] layer@[k])] == depth,
                forall|c: Coord|
                    self.grid.spec_in_bounds(c) && #[trigger] self.seen_cell(came@, c) && (flat_index(w as int, c) == start
                        || self.passable_spec(how, c)) && dist@[flat_index(w as int, c)] == depth ==> layer@.contains(c),
                self.spread_below(came@, dist@, start as int, targets@, how, depth as int),
                best < i32::MAX ==> exists|t: Coord|
                    #[trigger] targets@.contains(t) && self.grid.spec_in_bounds(t) && dist@[flat_index(w as int, t)] == best
                        && self.seen_cell(came@, t),
                forall|c: Coord|
                    self.grid.spec_in_bounds(c) && #[trigger] self.seen_cell(came@, c) && targets@.contains(c) && flat_index(
                        w as int,
                        c,
                    ) != start ==> best <= dist@[flat_index(w as int, c)],
            decreases unentered(came@, cells as nat), if layer@.len() > 0 {
                1int
            } else {
                0int
            },
        {
            let ghost lay0 = layer@;
            let ghost u0 = unentered(came@, cells as nat);
            let ghost mut done: int = 0;
            let ghost mut marked: nat = 0;
            let mut next: VecDeque<Coord> = VecDeque::new();
            proof {
                assert(layer@ =~= lay0.subrange(0, lay0.len() as int));
                assert forall|c: Coord|
                    self.grid.spec_in_bounds(c) && #[trigger] self.seen_cell(came@, c) && (flat_index(w as int, c) == start
                        || self.passable_spec(how, c)) && dist@[flat_index(w as int, c)] == depth + 1 implies next@.contains(c) by {
                    lemma_flat_index(w as int, h as int, c);
                    assert(came@[flat_index(w as int, c)] != usize::MAX);
                }
            }
            while layer.len() > 0
                invariant
                    self.inv(),
                    w == self.grid.spec_width(),
                    h == self.grid.spec_height(),
                    cells == self.cells(),
                    cells <= i32::MAX,
                    self.grid.spec_in_bounds(from),
                    start as int == flat_index(w as int, from),
                    coord_of(w as int, start as int) == from,
                    self.links_ok(came@, dist@, start as int, how),
                    self.queue_ok(lay0, came@, start as int, how),
                    self.queue_ok(next@, came@, start as int, how),
                    0 <= done <= lay0.len(),
                    layer@ == lay0.subrange(done, lay0.len() as int),
                    0 <= depth < best,
                    depth < i32::MAX,
                    depth + 1 + u0 <= cells,
                    unentered(came@, cells as nat) + marked == u0,
                    next@.len() <= marked,
                    forall|i: int| 0 <= i < came@.len() && #[trigger] came@[i] != usize::MAX ==> dist@[i] <= depth + 1,
                    forall|k: int| 0 <= k < lay0.len() ==> dist@[flat_index(w as int, #[trigger] lay0[k])] == depth,
                    forall|k: int| 0 <= k < next@.len() ==> dist@[flat_index(w as int, #[trigger] next@[k])] == depth + 1,
                    forall|c: Coord|
                        self.grid.spec_in_bounds(c) && #[trigger] self.seen_cell(came@, c) && (flat_index(w as int, c) == start
                            || self.passable_spec(how, c)) && dist@[flat_index(w as int, c)] == depth ==> lay0.contains(c),
                    forall|c: Coord|
                        self.grid.spec_in_bounds(c) && #[trigger] self.seen_cell(came@, c) && (flat_index(w as int, c) == start
                            || self.passable_spec(how, c)) && dist@[flat_index(w as int, c)] == depth + 1 ==> next@.contains(c),
                    forall|k: int| 0 <= k < done ==> #[trigger] self.spread_from(came@, dist@, lay0[k], targets@, how),
                    self.spread_below(came@, dist@, start as int, targets@, how, depth as int),
                    best < i32::MAX ==> exists|t: Coord|
                        #[trigger] targets@.contains(t) && self.grid.spec_in_bounds(t) && dist@[flat_index(w as int, t)] == best
                            && self.seen_cell(came@, t),
                    forall|c: Coord|
                        self.grid.spec_in_bounds(c) && #[trigger] self.seen_cell(came@, c) && targets@.contains(c) && flat_index(
                            w as int,
                            c,
                        ) != start ==> best <= dist@[flat_index(w as int, c)],
                decreases layer@.len(),
            {
                let at = match layer.pop_front() {
                    Some(c) => c,
                    None => {
                        proof {
                            assert(false);
                        }
                        return Vec::new();
                    },
                };
                proof {
                    assert(at == lay0[done]);
                    assert(lay0.contains(at));
                }
                let here = match self.cell_index(at) {
                    Some(i) => i,
                    None => {
                        proof {
                            assert(false);
                        }
                        return Vec::new();
                    },
                };
                let around = self.grid.adjacent(at);
                proof {
                    self.grid.lemma_adjacent_spec(at);
                    lemma_flat_index(w as int, h as int, at);
                }
                let mut j: usize = 0;
                while j < around.len()
                    invariant
                        self.inv(),
                        w == self.grid.spec_width(),
                        h == self.grid.spec_height(),
                        cells == self.cells(),
                        cells <= i32::MAX,
                        self.grid.spec_in_bounds(from),
                        start as int == flat_index(w as int, from),
                        coord_of(w as int, start as int) == from,
                        self.links_ok(came@, dist@, start as int, how),
                        self.queue_ok(lay0, came@, start as int, how),
                        self.queue_ok(next@, came@, start as int, how),
                        0 <= done < lay0.len(),
                        at == lay0[done],
                        here as int == flat_index(w as int, at),
                        self.grid.spec_in_bounds(at),
                        came@[here as int] != usize::MAX,
                        here == start || self.passable_spec(how, at),
                        dist@[here as int] == depth,
                        around@ == self.grid.adjacent_spec(at, false),
                        forall|m: int| 0 <= m < around@.len() ==> self.grid.spec_in_bounds(#[trigger] around@[m]) && taxi_spec(at, around@[m]) == 1,
                        j <= around@.len(),
                        0 <= depth < best,
                        depth < i32::MAX,
                        depth + 1 + u0 <= cells,
                        unentered(came@, cells as nat) + marked == u0,
                        next@.len() <= marked,
                        forall|i: int| 0 <= i < came@.len() && #[trigger] came@[i] != usize::MAX ==> dist@[i] <= depth + 1,
                        forall|k: int| 0 <= k < lay0.len() ==> dist@[flat_index(w as int, #[trigger] lay0[k])] == depth,
                        forall|k: int| 0 <= k < next@.len() ==> dist@[flat_index(w as int, #[trigger] next@[k])] == depth + 1,
                        forall|c: Coord|
                            self.grid.spec_in_bounds(c) && #[trigger] self.seen_cell(came@, c) && (flat_index(w as int, c) == start
                                || self.passable_spec(how, c)) && dist@[flat_index(w as int, c)] == depth ==> lay0.contains(c),
                        forall|c: Coord|
                            self.grid.spec_in_bounds(c) && #[trigger] self.seen_cell(came@, c) && (flat_index(w as int, c) == start
                                || self.passable_spec(how, c)) && dist@[flat_index(w as int, c)] == depth + 1 ==> next@.contains(c),
                        forall|k: int| 0 <= k < done ==> #[trigger] self.spread_from(came@, dist@, lay0[k], targets@, how),
                        forall|m: int|
                            0 <= m < j && self.opens(around@[m], targets@, how) ==> self.seen_cell(came@, #[trigger] around@[m])
                                && dist@[flat_index(w as int, around@[m])] <= depth + 1,
                        self.spread_below(came@, dist@, start as int, targets@, how, depth as int),
                        best < i32::MAX ==> exists|t: Coord|
                            #[trigger] targets@.contains(t) && self.grid.spec_in_bounds(t) && dist@[flat_index(w as int, t)]
                                == best && self.seen_cell(came@, t),
                        forall|c: Coord|
                            self.grid.spec_in_bounds(c) && #[trigger] self.seen_cell(came@, c) && targets@.contains(c) && flat_index(
                                w as int,
                                c,
                            ) != start ==> best <= dist@[flat_index(w as int, c)],
                    decreases around@.len() - j,
                {
                    let nb = around[j];
                    let ghost c0 = came@;
                    let ghost d0 = dist@;
                    let ghost b0 = best;
                    let ghost n0 = next@;
                    proof {
                        lemma_flat_index(w as int, h as int, nb);
                    }
                    let (m, q) = self.bfs_visit(&mut came, &mut dist, &mut next, &mut best, start, here, at, nb, targets, how);
                    proof {
                        if m {
                            marked = marked + 1;
                            self.lemma_visit_keeps(c0, d0, came@, dist@, flat_index(w as int, nb), start as int, targets@, how, depth + 1);
                        } else {
                            assert(came@ == c0 && dist@ == d0);
                        }
                        let fi = flat_index(w as int, nb);
                        assert forall|jj: int| 0 <= jj < lay0.len() implies {
                            let qq = #[trigger] lay0[jj];
                            &&& self.grid.spec_in_bounds(qq)
                            &&& came@[flat_index(self.grid.spec_width(), qq)] != usize::MAX
                            &&& (flat_index(self.grid.spec_width(), qq) == start || self.passable_spec(how, qq))
                        } by {
                            lemma_flat_index(w as int, h as int, lay0[jj]);
                            assert(c0[flat_index(w as int, lay0[jj])] != usize::MAX);
                        }
                        assert forall|i: int| 0 <= i < came@.len() && #[trigger] came@[i] != usize::MAX implies dist@[i] <= depth + 1 by {
                            if i != fi || !m {
                                assert(c0[i] != usize::MAX);
                            }
                        }
                        assert forall|k: int| 0 <= k < lay0.len() implies dist@[flat_index(w as int, #[trigger] lay0[k])] == depth by {
                            lemma_flat_index(w as int, h as int, lay0[k]);
                            assert(c0[flat_index(w as int, lay0[k])] != usize::MAX);
                        }
                        assert forall|k: int| 0 <= k < next@.len() implies dist@[flat_index(w as int, #[trigger] next@[k])] == depth + 1 by {
                            if k < n0.len() {
                                assert(next@[k] == n0[k]);
                                lemma_flat_index(w as int, h as int, n0[k]);
                                assert(c0[flat_index(w as int, n0[k])] != usize::MAX);
                            } else {
                                assert(next@[k] == nb);
                            }
                        }
                        assert forall|c: Coord|
                            self.grid.spec_in_bounds(c) && #[trigger] self.seen_cell(came@, c) && (flat_index(w as int, c) == start
                                || self.passable_spec(how, c)) && dist@[flat_index(w as int, c)] == depth implies lay0.contains(c) by {
                            lemma_flat_index(w as int, h as int, c);
                            if flat_index(w as int, c) != fi || !m {
                                assert(self.seen_cell(c0, c));
                            }
                        }
                        assert forall|c: Coord|
                            self.grid.spec_in_bounds(c) && #[trigger] self.seen_cell(came@, c) && (flat_index(w as int, c) == start
                                || self.passable_spec(how, c)) && dist@[flat_index(w as int, c)] == depth + 1 implies next@.contains(c) by {
                            lemma_flat_index(w as int, h as int, c);
                            if flat_index(w as int, c) != fi || !m {
                                assert(self.seen_cell(c0, c));
                                assert(n0.contains(c));
                                let kk = choose|kk: int| 0 <= kk < n0.len() && n0[kk] == c;
                                assert(next@[kk] == c);
                            } else {
                                assert(c == nb);
                                assert(fi != start as int);
                                assert(next@[next@.len() - 1] == nb);
                            }
                        }
                        assert forall|k: int| 0 <= k < done implies #[trigger] self.spread_from(came@, dist@, lay0[k], targets@, how) by {
                            if m {
                                lemma_flat_index(w as int, h as int, lay0[k]);
                                assert(self.spread_from(c0, d0, lay0[k], targets@, how));
                            }
                        }
                        assert forall|mm: int|
                            0 <= mm < j + 1 && self.opens(around@[mm], targets@, how) implies self.seen_cell(came@, #[trigger] around@[mm])
                                && dist@[flat_index(w as int, around@[mm])] <= depth + 1 by {
                            lemma_flat_index(w as int, h as int, around@[mm]);
                            if mm < j {
                                assert(self.seen_cell(c0, around@[mm]));
                            } else if !m {
                                assert(self.seen_cell(c0, nb));
                            }
                        }
                        if best < i32::MAX {
                            if best != b0 {
                                assert(targets@.contains(nb) && self.grid.spec_in_bounds(nb) && dist@[fi] == best && self.seen_cell(came@, nb));
                            } else {
                                let t = choose|t: Coord|
                                    #[trigger] targets@.contains(t) && self.grid.spec_in_bounds(t) && d0[flat_index(w as int, t)] == b0
                                        && self.seen_cell(c0, t);
                                lemma_flat_index(w as int, h as int, t);
                                assert(dist@[flat_index(w as int, t)] == best);
                            }
                        }
                        assert forall|c: Coord|
                            self.grid.spec_in_bounds(c) && #[trigger] self.seen_cell(came@, c) && targets@.contains(c) && flat_index(
                                w as int,
                                c,
                            ) != start implies best <= dist@[flat_index(w as int, c)] by {
                            lemma_flat_index(w as int, h as int, c);
                            if flat_index(w as int, c) != fi || !m {
                                assert(self.seen_cell(c0, c));
                            }
                        }
                    }
                    j = j + 1;
                }
                proof {
                    assert forall|n: Coord|
                        self.grid.spec_in_bounds(n) && #[trigger] taxi_spec(at, n) == 1 && self.opens(n, targets@, how) implies self.seen_cell(
                        came@,
                        n,
                    ) && dist@[flat_index(w as int, n)] <= dist@[flat_index(w as int, at)] + 1 by {
                        assert(self.grid.adjacent_spec(at, false).contains(n));
                        let mm = choose|mm: int| 0 <= mm < around@.len() && around@[mm] == n;
                        assert(around@[mm] == n);
                    }
                    assert(self.spread_from(came@, dist@, at, targets@, how));
                    assert forall|k: int| 0 <= k < done + 1 implies #[trigger] self.spread_from(came@, dist@, lay0[k], targets@, how) by {}
                    done = done + 1;
                    assert(layer@ =~= lay0.subrange(done, lay0.len() as int));
                }
            }
            proof {
                assert(done == lay0.len());
                assert forall|c: Coord|
                    self.grid.spec_in_bounds(c) && #[trigger] self.seen_cell(came@, c) && (flat_index(w as int, c) == start
                        || self.passable_spec(how, c)) && dist@[flat_index(w as int, c)] < depth + 1 implies self.spread_from(
                    came@,
                    dist@,
                    c,
                    targets@,
                    how,
                ) by {
                    if dist@[flat_index(w as int, c)] == depth {
                        assert(lay0.contains(c));
                        let kk = choose|kk: int| 0 <= kk < lay0.len() && lay0[kk] == c;
                        assert(self.spread_from(came@, dist@, lay0[kk], targets@, how));
                    }
                }
                assert(self.spread_below(came@, dist@, start as int, targets@, how, depth + 1));
            }
            layer = next;
            depth = depth + 1;
        }
        proof {
            if layer@.len() > 0 {
                assert(depth >= best);
            }
        }
        proof {
            if layer@.len() == 0 {
                assert forall|x: Coord|
                    self.grid.spec_in_bounds(x) && #[trigger] self.seen_cell(came@, x) && (flat_index(w as int, x) == start
                        || self.passable_spec(how, x)) implies dist@[flat_index(w as int, x)] < depth by {
                    lemma_flat_index(w as int, h as int, x);
                    assert(came@[flat_index(w as int, x)] != usize::MAX);
                    if dist@[flat_index(w as int, x)] == depth {
                        assert(layer@.contains(x));
                    }
                }
            }
        }
        if best == i32::MAX {
            proof {
                assert(layer@.len() == 0);
                if !targets@.contains(from) && self.cells() < i32::MAX {
                    assert forall|q: Seq<Coord>, t: Coord| targets@.contains(t) && #[trigger] self.trail(q, from, t, how) implies false by {
                        self.lemma_trail_seen(came@, dist@, start as int, targets@, how, q, from, t, depth as int, true, q.len() - 1);
                        lemma_flat_index(w as int, h as int, t);
                        assert(t != from);
                        assert(flat_index(w as int, t) != start) by {
                            if flat_index(w as int, t) == start {
                                assert(coord_of(w as int, start as int) == t);
                            }
                        }
                        assert(came@[flat_index(w as int, t)] != usize::MAX);
                    }
                }
            }
            return Vec::new();
        }
        let mut out: Vec<Vec<Coord>> = Vec::new();
        let mut k: usize = 0;
        while k < targets.len()
            invariant
                self.inv(),
                w == self.grid.spec_width(),
                h == self.grid.spec_height(),
                cells == self.cells(),
                coord_of(w as int, start as int) == from,
                self.links_ok(came@, dist@, start as int, how),
                best < i32::MAX,
                k <= targets@.len(),
                out@.len() <= k,
                forall|l: int| 0 <= l < out@.len() ==> self.route_ok((#[trigger] out@[l])@, from, targets@, how),
                forall|l: int| 0 <= l < out@.len() ==> self.trail((#[trigger] out@[l])@, from, out@[l]@[out@[l]@.len() - 1], how),
                forall|l: int| 0 <= l < out@.len() ==> (#[trigger] out@[l])@.len() == best + 1,
                (exists|mm: int| 0 <= mm < k && self.grid.spec_in_bounds(#[trigger] targets@[mm]) && dist@[flat_index(
                    w as int,
                    targets@[mm],
                )] == best) ==> out@.len() > 0,
            decreases targets@.len() - k,
        {
            let t = targets[k];
            match self.cell_index(t) {
                Some(i) => {
                    if dist[i] == best {
                        proof {
                            lemma_flat_index(w as int, h as int, t);
                            assert(dist@[i as int] < i32::MAX);
                        }
                        let path = self.rebuild_route(&came, &dist, start, how, i, from);
                        proof {
                            assert(targets@[k as int] == t);
                            assert(path@[path@.len() - 1] == t);
                            assert(targets@.contains(t));
                            assert(self.route_ok(path@, from, targets@, how));
                            assert(self.trail(path@, from, path@[path@.len() - 1], how));
                        }
                        let ghost before = out@;
                        out.push(path);
                        proof {
                            assert forall|l: int| 0 <= l < out@.len() implies self.route_ok((#[trigger] out@[l])@, from, targets@, how)
                                && self.trail(out@[l]@, from, out@[l]@[out@[l]@.len() - 1], how) && out@[l]@.len() == best + 1 by {
                                if l < before.len() {
                                    assert(out@[l] == before[l]);
                                } else {
                                    assert(out@[l] == path);
                                }
                            }
                        }
                    }
                },
                None => {},
            }
            k = k + 1;
        }
        proof {
            let t = choose|t: Coord|
                #[trigger] targets@.contains(t) && self.grid.spec_in_bounds(t) && dist@[flat_index(w as int, t)] == best && self.seen_cell(came@, t);
            let mm = choose|mm: int| 0 <= mm < targets@.len() && targets@[mm] == t;
            assert(self.grid.spec_in_bounds(targets@[mm]) && dist@[flat_index(w as int, targets@[mm])] == best);
            assert(out@.len() > 0);
            let p0 = out@[0]@;
            assert(self.trail(p0, from, p0[p0.len() - 1], how) && targets@.contains(p0[p0.len() - 1]));
            if !targets@.contains(from) {
                assert forall|q: Seq<Coord>, tt: Coord| targets@.contains(tt) && #[trigger] self.trail(q, from, tt, how) implies out@[0]@.len() <= q.len() by {
                    if q.len() < best + 1 {
                        let closed = layer@.len() == 0;
                        self.lemma_trail_seen(came@, dist@, start as int, targets@, how, q, from, tt, depth as int, closed, q.len() - 1);
                        lemma_flat_index(w as int, h as int, tt);
                        assert(tt != from);
                        assert(flat_index(w as int, tt) != start) by {
                            if flat_index(w as int, tt) == start {
                                assert(coord_of(w as int, start as int) == tt);
                            }
                        }
                    }
                }
            }
        }
        out
    }

    // -- crafting -----------------------------------------------------------------

    /// Whether a live organelle takes one unit of `resource`: it is on an
    /// upgrade line, and either its locked-in path wants that resource or,
    /// with no path locked in yet, one of its paths does.
    pub closed spec fn accepts(&self, id: ActorId, resource: actors::Resource) -> bool {
        &&& self.live(id)
        &&& (actors::extra_upgrade(self.actor(id).extra) matches Some(u) && {
            let paths = actors::kind_upgrade_paths(self.actor(id).kind);
            match u.path {
                Some(p) => p < paths.len() && paths[p as int].resource == resource,
                None => exists|k: int| 0 <= k < paths.len() && paths[k].resource == resource,
            }
        })
    }

    /// Put one unit of `resource` into an organelle. The first material
    /// absorbed locks in which of the two upgrade paths it is on; the wrong
    /// material afterwards is refused. Reaching the path's amount turns the
    /// organelle into what the path leads to. Returns whether the material
    /// was taken.
    pub fn upgrade(&mut self, id: ActorId, resource: actors::Resource) -> (taken: bool)
        requires
            old(self).inv(),
        ensures
            final(self).inv(),
            old(self).kept_setup(&*final(self)),
            taken == old(self).accepts(id, resource),
            !taken ==> *final(self) == *old(self),
            taken ==> old(self).live(id),
            taken ==> final(self).fuel_m() + (if actors::is_crafting_material(old(self).actor(id).kind) {
                1nat
            } else {
                0nat
            }) <= old(self).fuel_m(),
            taken ==> organelles_kept(old(self).arena()@.update(id@ as int, None), final(self).arena()@),
    {
        let (kind, state) = match self.actors.get(id) {
            Some(a) => match a.extra.upgrade() {
                Some(u) => (a.kind, *u),
                None => {
                    return false;
                },
            },
            None => {
                return false;
            },
        };
        let paths = kind.upgrade_paths();
        let index: usize = match state.path {
            Some(locked) => locked,
            None => {
                let mut k: usize = 0;
                let mut found: Option<usize> = None;
                while k < paths.len()
                    invariant
                        old(self).kept_setup(&*self),
                        k <= paths@.len(),
                        found matches Some(f) ==> f < paths@.len() && paths@[f as int].resource == resource,
                        found is None ==> forall|j: int| 0 <= j < k ==> paths@[j].resource != resource,
                    ensures
                        found matches Some(f) ==> f < paths@.len() && paths@[f as int].resource == resource,
                        found is None ==> forall|j: int| 0 <= j < paths@.len() ==> paths@[j].resource != resource,
                    decreases paths@.len() - k,
                {
                    if paths[k].resource == resource {
                        found = Some(k);
                        break;
                    }
                    k = k + 1;
                }
                match found {
                    Some(f) => f,
                    None => {
                        return false;
                    },
                }
            },
        };
        if index >= paths.len() {
            return false;
        }
        let path = paths[index];
        if path.resource != resource {
            return false;
        }
        let amount = path.amount;
        let result = path.result;
        let ghost o = *self;
        let progress: i32 = match self.actors.get_mut(id) {
            Some(a) => match a.extra.upgrade_mut() {
                Some(st) => {
                    st.path = Some(index);
                    if st.progress < i32::MAX {
                        st.progress = st.progress + 1;
                    }
                    st.progress
                },
                None => {
                    return false;
                },
            },
            None => {
                return false;
            },
        };
        proof {
            assert(same_bodies(o.actors@, self.actors@));
            lemma_occupancy_same_bodies(self.grid, o.actors@, self.actors@, self.actor_at@, self.items@, self.item_at@);
            self.lemma_fuel_same(&o);
        }
        let old_name = kind.name();
        let material = resource.name();
        if progress < amount {
            let line = join_text(&["The ", old_name, " absorbs the ", material]);
            self.say(line.as_str());
            proof {
                assert(organelles_kept(o.actors@.update(id@ as int, None), self.actors@)) by {
                    assert forall|j: int|
                        0 <= j < o.actors@.len() && (#[trigger] o.actors@.update(id@ as int, None)[j]) is Some
                            && !actors::is_npc(o.actors@.update(id@ as int, None)[j]->0.kind) implies self.actors@[j] is Some
                        && self.actors@[j]->0.kind == o.actors@.update(id@ as int, None)[j]->0.kind by {
                        assert(o.actors@[j] is Some);
                    }
                }
            }
            return true;
        }
        let pos = match self.actors.get(id) {
            Some(a) => a.pos,
            None => {
                return true;
            },
        };
        let ghost before_remove = *self;
        self.remove_actor(id);
        proof {
            lemma_count_actors_clear(before_remove.actors@, id@ as int, |a: actors::Actor| actors::is_crafting_material(a.kind));
            lemma_counts_same_kinds(before_remove.actors@.update(id@ as int, None), self.actors@);
        }
        let ghost removed = *self;
        let grown = self.add_actor(result, pos);
        proof {
            actors::law_upgrades_lead_somewhere_real(kind, index as int);
            assert(!actors::is_crafting_material(result));
        }
        let line = join_text(&["The ", old_name, " absorbs the ", material, " and transforms into a ", result.name(), "!"]);
        self.say(line.as_str());
        let ghost added = *self;
        if is_nucleus_family(result) {
            self.set_active_nucleus(grown);
        }
        let ghost steered = *self;
        self.cue(Cue::Upgrade);
        proof {
            lemma_counts_same_kinds(added.actors@, steered.actors@);
            assert(self.actors@ == steered.actors@);
            assert(self.items@ == o.items@);
            assert(organelles_kept(o.actors@.update(id@ as int, None), removed.actors@)) by {
                let ou = o.actors@.update(id@ as int, None);
                let bu = before_remove.actors@.update(id@ as int, None);
                assert forall|j: int| 0 <= j < ou.len() && (#[trigger] ou[j]) is Some && !actors::is_npc(ou[j]->0.kind)
                    implies removed.actors@[j] is Some && removed.actors@[j]->0.kind == ou[j]->0.kind
                    && removed.actors@[j]->0.pos == ou[j]->0.pos by {
                    assert(o.actors@[j] is Some);
                    assert(before_remove.actors@[j] is Some);
                    assert(bu[j] == before_remove.actors@[j]);
                    assert(bu[j] is Some);
                }
            }
            assert(organelles_kept(removed.actors@, added.actors@));
            assert(organelles_kept(added.actors@, steered.actors@));
            assert(organelles_kept(o.actors@.update(id@ as int, None), self.actors@));
        }
        true
    }

    /// Consume a crafting material, leaving a cytoplasm where it stood so
    /// the mass is conserved.
    fn spend_material(&mut self, material: ActorId)
        requires
            old(self).inv(),
        ensures
            final(self).inv(),
            old(self).kept_setup(&*final(self)),
            final(self).fuel_m() + (if old(self).live(material) && actors::is_crafting_material(
                old(self).actor(material).kind,
            ) {
                1nat
            } else {
                0nat
            }) <= old(self).fuel_m(),
            organelles_kept(
                if old(self).live(material) {
                    old(self).arena()@.update(material@ as int, None)
                } else {
                    old(self).arena()@
                },
                final(self).arena()@,
            ),
    {
        let pos = match self.actors.get(material) {
            Some(a) => a.pos,
            None => {
                return ;
            },
        };
        let ghost o = *self;
        self.remove_actor(material);
        proof {
            lemma_count_actors_clear(o.actors@, material@ as int, |a: actors::Actor| actors::is_crafting_material(a.kind));
            lemma_counts_same_kinds(o.actors@.update(material@ as int, None), self.actors@);
        }
        self.add_actor(Kind::Cytoplasm, pos);
    }

    /// Offer a crafting material to one specific organelle: the route a
    /// nucleus is upgraded by. Returns whether the material was used.
    pub fn try_upgrade(&mut self, material: ActorId, recipient: ActorId) -> (used: bool)
        requires
            old(self).inv(),
        ensures
            final(self).inv(),
            old(self).kept_setup(&*final(self)),
            used == (old(self).live(material) && (actors::kind_provides(old(self).actor(material).kind) matches Some(r)
                && old(self).accepts(recipient, r))),
            !used ==> *final(self) == *old(self),
            used ==> final(self).fuel_m() < old(self).fuel_m(),
    {
        let resource = match self.actors.get(material) {
            Some(a) => match a.kind.provides() {
                Some(r) => r,
                None => {
                    return false;
                },
            },
            None => {
                return false;
            },
        };
        let ghost o = *self;
        if !self.upgrade(recipient, resource) {
            return false;
        }
        proof {
            assert(actors::is_crafting_material(o.actor(material).kind));
            if material != recipient {
                ActorId::lemma_view_injective(material, recipient);
                assert(o.actors@.update(recipient@ as int, None)[material@ as int] == o.actors@[material@ as int]);
            }
        }
        self.spend_material(material);
        true
    }

    // -- the nucleus line ---------------------------------------------------------

    /// `a + b`, held within `i32`.
    fn saturating(a: i32, b: i64) -> (r: i32)
        requires
            i32::MIN <= b <= i32::MAX,
        ensures
            r == (if a + b > i32::MAX {
                i32::MAX as int
            } else if a + b < i32::MIN {
                i32::MIN as int
            } else {
                a + b
            }),
    {
        let sum: i64 = a as i64 + b;
        if sum > 2147483647 {
            2147483647
        } else if sum < -2147483648 {
            -2147483648
        } else {
            sum as i32
        }
    }

    // -- commands -------------------------------------------------------------------

    /// Whether the organelle browser lists `id`: anything alive in the mass
    /// but cytoplasm and raw crafting materials.
    pub closed spec fn listed(&self, id: ActorId) -> bool {
        &&& self.live(id)
        &&& self.actor(id).kind != Kind::Cytoplasm
        &&& !actors::is_crafting_material(self.actor(id).kind)
    }

    /// The browser's entries, in acquisition order.
    pub closed spec fn loggable_spec(&self) -> Seq<ActorId> {
        self.player_mass@.filter(|id: ActorId| self.listed(id))
    }

    /// The browser's entries: the mass but its cytoplasm and raw materials,
    /// in acquisition order.
    pub(crate) fn loggable(&self) -> (r: Vec<ActorId>)
        requires
            self.inv(),
        ensures
            r@ == self.loggable_spec(),
    {
        let mut out: Vec<ActorId> = Vec::new();
        let mut k: usize = 0;
        while k < self.player_mass.len()
            invariant
                self.inv(),
                k <= self.player_mass@.len(),
                out@ == self.player_mass@.take(k as int).filter(|id: ActorId| self.listed(id)),
            decreases self.player_mass@.len() - k,
        {
            let id = self.player_mass[k];
            let keep = match self.actors.get(id) {
                Some(a) => a.kind != Kind::Cytoplasm && !actors::is_crafting_material(a.kind),
                None => false,
            };
            proof {
                let pred = |x: ActorId| self.listed(x);
                assert(self.player_mass@.take(k + 1) == self.player_mass@.take(k as int).push(id));
                self.player_mass@.take(k as int).lemma_filter_push(id, pred);
            }
            if keep {
                out.push(id);
            }
            k = k + 1;
        }
        proof {
            assert(self.player_mass@.take(k as int) == self.player_mass@);
        }
        out
    }

    /// Everything about two worlds is the same but the panels: which one is
    /// open, the examine cursor and the organelle browser.
    pub closed spec fn panels_only(&self, other: &Sim) -> bool {
        *other == (Sim { mode: other.mode, cursor: other.cursor, organelles: other.organelles, ..*self })
    }

    /// Move the browser's selection by `by` entries, wrapping at both ends.
    fn scroll_organelles(&mut self, by: i32)
        requires
            old(self).inv(),
        ensures
            final(self).inv(),
            old(self).kept_setup(&*final(self)),
            old(self).panels_only(&*final(self)),
            final(self).mode_spec() == old(self).mode_spec(),
            final(self).cursor_spec() == old(self).cursor_spec(),
            final(self).browser_spec().scrolled() == old(self).browser_spec().scrolled(),
            old(self).loggable_spec().len() == 0 ==> final(self).browser_spec().cursor() == 0,
            old(self).loggable_spec().len() > 0 ==> final(self).browser_spec().cursor() == (old(
                self,
            ).browser_spec().selected_spec(old(self).loggable_spec().len()) + by) % (old(
                self,
            ).loggable_spec().len() as int),
    {
        let count = self.loggable().len();
        self.organelles.scroll(by, count);
    }

    /// Where the examine cursor opens: on the highlighted organelle if the
    /// browser is open, otherwise on the active nucleus, and in the middle of
    /// the map when there is neither.
    pub closed spec fn examine_start(&self) -> Coord {
        let middle = Coord { x: (self.grid.spec_width() / 2) as i32, y: (self.grid.spec_height() / 2) as i32 };
        let list = self.loggable_spec();
        if self.mode == UiMode::Organelles {
            if list.len() > 0 {
                self.actor(list[self.organelles.selected_spec(list.len()) as int]).pos
            } else {
                middle
            }
        } else {
            match self.active {
                Some(a) => self.actor(a).pos,
                None => middle,
            }
        }
    }

    /// Open examine mode on whatever has attention, or close it.
    fn toggle_examine(&mut self)
        requires
            old(self).inv(),
        ensures
            final(self).inv(),
            old(self).kept_setup(&*final(self)),
            old(self).panels_only(&*final(self)),
            final(self).browser_spec() == old(self).browser_spec(),
            old(self).cursor_spec() is Some ==> final(self).cursor_spec() is None && final(self).mode_spec()
                == UiMode::Messages,
            old(self).cursor_spec() is None ==> final(self).cursor_spec() == Some(old(self).examine_start())
                && final(self).mode_spec() == UiMode::Examine,
    {
        if self.cursor.is_some() {
            self.cursor = None;
            self.mode = UiMode::Messages;
            return ;
        }
        proof {
            self.grid.lemma_wf();
        }
        let middle = Coord::new(self.grid.width() / 2, self.grid.height() / 2);
        let start = if self.mode == UiMode::Organelles {
            let list = self.loggable();
            let idx = self.organelles.selected(list.len());
            if idx < list.len() {
                proof {
                    let pred = |x: ActorId| self.listed(x);
                    self.player_mass@.lemma_filter_pred(pred, idx as int);
                }
                match self.actors.get(list[idx]) {
                    Some(a) => a.pos,
                    None => middle,
                }
            } else {
                middle
            }
        } else {
            match self.active {
                Some(a) => match self.actors.get(a) {
                    Some(x) => x.pos,
                    None => middle,
                },
                None => middle,
            }
        };
        self.cursor = Some(start);
        self.mode = UiMode::Examine;
    }

    /// Where a step from `c` lands once held to the map.
    pub open spec fn cursor_step(c: Coord, d: Dir, w: int, h: int) -> Coord {
        let x = c.x + grid::dir_offset(d).x;
        let y = c.y + grid::dir_offset(d).y;
        Coord {
            x: (if x < 0 {
                0
            } else if x > w - 1 {
                w - 1
            } else {
                x
            }) as i32,
            y: (if y < 0 {
                0
            } else if y > h - 1 {
                h - 1
            } else {
                y
            }) as i32,
        }
    }

    /// Step the examine cursor, held to the map.
    fn move_cursor(&mut self, dir: Dir)
        requires
            old(self).inv(),
            old(self).cursor_spec() is Some ==> old(self).map().spec_width() >= 1 && old(self).map().spec_height()
                >= 1,
        ensures
            final(self).inv(),
            old(self).kept_setup(&*final(self)),
            old(self).panels_only(&*final(self)),
            final(self).mode_spec() == old(self).mode_spec(),
            final(self).browser_spec() == old(self).browser_spec(),
            old(self).cursor_spec() is None ==> final(self).cursor_spec() is None,
            old(self).cursor_spec() matches Some(c) ==> final(self).cursor_spec() == Some(
                Self::cursor_step(c, dir, old(self).map().spec_width(), old(self).map().spec_height()),
            ),
    {
        let c = match self.cursor {
            Some(c) => c,
            None => {
                return ;
            },
        };
        proof {
            self.grid.lemma_wf();
        }
        let step = dir.offset();
        let nx: i64 = c.x as i64 + step.x as i64;
        let ny: i64 = c.y as i64 + step.y as i64;
        let w: i64 = self.grid.width() as i64;
        let h: i64 = self.grid.height() as i64;
        let x: i64 = if nx < 0 {
            0
        } else if nx > w - 1 {
            w - 1
        } else {
            nx
        };
        let y: i64 = if ny < 0 {
            0
        } else if ny > h - 1 {
            h - 1
        } else {
            ny
        };
        self.cursor = Some(Coord::new(x as i32, y as i32));
    }

    /// The controls, in the words this frontend's player can act on.
    pub open spec fn help_lines(style: InputStyle) -> Seq<Seq<char>> {
        match style {
            InputStyle::Keys => seq![
                "Arrow keys: Move / Select"@,
                "Space: Wait"@,
                "X: Toggle examine mode"@,
                "Z: Toggle organelle browsing mode"@,
                "ESC: Back to player mode"@,
                "A, D: Cycle active nucleus"@,
            ],
            InputStyle::Touch => seq![
                "List is what you are made of."@,
                "Prev and next change nucleus."@,
                "Look examines whatever you tap."@,
                "Wait passes the turn."@,
                "The pad moves you, and so does tapping a tile beside you."@,
            ],
        }
    }

    /// Print the controls, then how many gates the run needs broken.
    fn write_help(&mut self)
        requires
            old(self).inv(),
        ensures
            final(self).inv(),
            old(self).kept_setup(&*final(self)),
            final(self).log_spec()@ == said_all(
                old(self).log_spec()@,
                Self::help_lines(old(self).style_spec()).push(
                    "Destroy "@ + signed_decimal(old(self).rules_spec().num_cities - old(self).rules_spec().grace_cities)
                        + " cities to win"@,
                ),
            ),
            *final(self) == (Sim { messages: final(self).messages, ..*old(self) }),
    {
        let lines: Vec<&str> = match self.input_style {
            InputStyle::Keys => vec![
                "Arrow keys: Move / Select",
                "Space: Wait",
                "X: Toggle examine mode",
                "Z: Toggle organelle browsing mode",
                "ESC: Back to player mode",
                "A, D: Cycle active nucleus",
            ],
            InputStyle::Touch => vec![
                "List is what you are made of.",
                "Prev and next change nucleus.",
                "Look examines whatever you tap.",
                "Wait passes the turn.",
                "The pad moves you, and so does tapping a tile beside you.",
            ],
        };
        let ghost wanted = Self::help_lines(self.input_style);
        proof {
            assert(lines@.map_values(|l: &str| l@) == wanted);
        }
        let ghost start = self.messages@;
        let mut k: usize = 0;
        while k < lines.len()
            invariant
                old(self).kept_setup(&*self),
                self.inv(),
                k <= lines@.len(),
                lines@.map_values(|l: &str| l@) == wanted,
                self.messages@ == said_all(start, wanted.take(k as int)),
                *self == (Sim { messages: self.messages, ..*old(self) }),
                start == old(self).messages@,
                wanted == Self::help_lines(old(self).input_style),
            decreases lines@.len() - k,
        {
            self.messages.add(lines[k]);
            proof {
                assert(wanted.take(k + 1).drop_last() == wanted.take(k as int));
                assert(wanted.take(k + 1).last() == lines@[k as int]@);
            }
            k = k + 1;
        }
        proof {
            assert(wanted.take(k as int) == wanted);
            assert(0 <= self.rules.grace_cities <= self.rules.num_cities <= 16);
        }
        let required = self.rules.cities_required();
        let count = signed_text(required as i64);
        let parts: [&str; 3] = ["Destroy ", count.as_str(), " cities to win"];
        let line = join_text(&parts);
        proof {
            assert(parts@.map_values(|p: &str| p@) =~= seq!["Destroy "@, count@, " cities to win"@]);
            lemma_flatten3("Destroy "@, count@, " cities to win"@);
            assert(wanted.push(line@).drop_last() == wanted);
        }
        self.messages.add(line.as_str());
    }

    /// Route a command taken during play. Waiting ends the turn, and so
    /// does a move that happened; everything else is free.
    fn handle(&mut self, command: Command)
        requires
            old(self).inv(),
            old(self).cursor_spec() is Some && (command is MoveCursor || (command is Move && old(self).mode_spec()
                == UiMode::Examine)) ==> old(self).map().spec_width() >= 1 && old(self).map().spec_height() >= 1,
        ensures
            final(self).inv(),
            old(self).kept_setup(&*final(self)),
            command is Wait ==> !final(self).turn_spec() && final(self).log_spec()@ == log::keep_recent(
                old(self).log_spec()@ + log::wrap_spec("You wait."@, log::WRAP_WIDTH as nat),
            ),
            !(command is Wait) && !(command is Move && old(self).mode_spec() == UiMode::Messages) ==> final(self).turn_spec() == old(self).turn_spec() && same_places(old(self).arena()@, final(self).arena()@)
                && final(self).floor() == old(self).floor() && final(self).map() == old(self).map() && final(self).queue().spec_time() == old(self).queue().spec_time() && final(self).phase_spec() == old(self).phase_spec(),
            command is Move && old(self).mode_spec() == UiMode::Messages && final(self).turn_spec() ==> same_bodies(
                old(self).arena()@,
                final(self).arena()@,
            ) && final(self).floor() == old(self).floor() && final(self).map() == old(self).map(),
            command matches Command::MoveCursor(d) ==> final(self).cursor_spec() == match old(self).cursor_spec() {
                Some(c) => Some(Self::cursor_step(c, d, old(self).map().spec_width(), old(self).map().spec_height())),
                None => None,
            },
            command is ToggleExamine && old(self).cursor_spec() is Some ==> final(self).cursor_spec() is None
                && final(self).mode_spec() == UiMode::Messages,
            command is ToggleExamine && old(self).cursor_spec() is None ==> final(self).cursor_spec() == Some(
                old(self).examine_start(),
            ) && final(self).mode_spec() == UiMode::Examine,
            command is ToggleOrganelles && old(self).mode_spec() == UiMode::Organelles ==> final(self).mode_spec()
                == UiMode::Messages && final(self).cursor_spec() == old(self).cursor_spec(),
            command is ToggleOrganelles && old(self).mode_spec() != UiMode::Organelles ==> final(self).mode_spec()
                == UiMode::Organelles && final(self).cursor_spec() is None,
            command is Back ==> final(self).mode_spec() == UiMode::Messages && final(self).cursor_spec() is None,
            command matches Command::ScrollOrganelles(by) ==> (old(self).loggable_spec().len() > 0 ==> final(self).browser_spec().cursor() == (old(self).browser_spec().selected_spec(old(self).loggable_spec().len())
                + by) % (old(self).loggable_spec().len() as int)),
            command matches Command::PageOrganelles(by) ==> final(self).browser_spec().scrolled() == if old(self).browser_spec().scrolled() + by < 0 {
                0
            } else if old(self).browser_spec().scrolled() + by > i32::MAX {
                i32::MAX as nat
            } else {
                (old(self).browser_spec().scrolled() + by) as nat
            },
            command is Start || command is Restart ==> *final(self) == *old(self),
            (command is Move && old(self).mode_spec() == UiMode::Messages && old(self).active_spec() is None)
                ==> (*final(self) == *old(self)),
            command matches Command::Move(d) ==> (old(self).mode_spec() == UiMode::Messages ==> (old(self).active_spec() matches Some(a)
                ==> ({
                let dest = Coord {
                    x: (old(self).actor(a).pos.x + grid::dir_offset(d).x) as i32,
                    y: (old(self).actor(a).pos.y + grid::dir_offset(d).y) as i32,
                };
                ((old(self).occupant(dest) matches Some(t) && old(self).takes(a, t)) || (old(self).occupant(dest) is None
                    && old(self).lying(dest) is None && old(self).map().spec_in_bounds(dest)
                    && old(self).map().spec_cell(dest).walkable)) ==> !final(self).turn_spec()
            }))),
    {
        let ends_turn = match command {
            Command::Move(dir) => match self.mode {
                UiMode::Examine => {
                    self.move_cursor(dir);
                    false
                },
                UiMode::Organelles => {
                    let by: i32 = match dir {
                        Dir::Up | Dir::Left => -1,
                        _ => 1,
                    };
                    self.scroll_organelles(by);
                    false
                },
                UiMode::Messages => self.attack_move_player(dir),
            },
            Command::MoveCursor(dir) => {
                self.move_cursor(dir);
                false
            },
            Command::Wait => {
                self.messages.add("You wait.");
                true
            },
            Command::CycleNucleus { forward } => {
                self.next_nucleus(
                    if forward {
                        1
                    } else {
                        -1
                    },
                );
                false
            },
            Command::ToggleExamine => {
                self.toggle_examine();
                false
            },
            Command::ToggleOrganelles => {
                if self.mode == UiMode::Organelles {
                    self.mode = UiMode::Messages;
                } else {
                    self.cursor = None;
                    self.mode = UiMode::Organelles;
                }
                false
            },
            Command::ScrollOrganelles(by) => {
                self.scroll_organelles(by);
                false
            },
            Command::PageOrganelles(by) => {
                self.organelles.turn_page(by);
                false
            },
            Command::Back => {
                self.cursor = None;
                self.mode = UiMode::Messages;
                false
            },
            Command::Help => {
                self.write_help();
                false
            },
            Command::Start(_) | Command::Restart { .. } => false,
        };
        if ends_turn {
            self.player_turn = false;
        }
    }

    /// Nothing differs between the two but what the map says about sight.
    pub closed spec fn sight_only(&self, other: &Sim) -> bool {
        *other == (Sim { grid: other.grid, ..*self })
    }

    /// Recompute what the mass can see: the union of the diamonds every
    /// organelle in it lights, and every lit cell is marked as seen. Only
    /// sight changes: what can be walked or seen through stays as it was,
    /// and a cell once seen stays seen.
    #[verifier::spinoff_prover]
    pub fn update_player_fov(&mut self)
        requires
            old(self).inv(),
        ensures
            final(self).inv(),
            old(self).kept_setup(&*final(self)),
            old(self).sight_only(&*final(self)),
            final(self).map().spec_width() == old(self).map().spec_width(),
            final(self).map().spec_height() == old(self).map().spec_height(),
            forall|c: Coord| #[trigger] final(self).map().spec_cell(c).walkable == old(self).map().spec_cell(c).walkable
                && final(self).map().spec_cell(c).transparent == old(self).map().spec_cell(c).transparent,
            forall|c: Coord| #[trigger] final(self).map().spec_cell(c).in_fov ==> final(self).map().spec_cell(c).explored,
            forall|c: Coord| #[trigger] old(self).map().spec_cell(c).explored ==> final(self).map().spec_cell(c).explored,
            forall|j: int, c: Coord|
                0 <= j < old(self).mass_spec().len() && old(self).live(old(self).mass_spec()[j]) && old(self).actor(
                    old(self).mass_spec()[j],
                ).awareness >= 0 && old(self).map().spec_in_bounds(c) && #[trigger] old(self).map().cast_lit(
                    old(self).actor(old(self).mass_spec()[j]).pos,
                    old(self).actor(old(self).mass_spec()[j]).awareness as int,
                    true,
                    c,
                ) ==> final(self).map().spec_cell(c).in_fov,
            forall|j: int|
                0 <= j < old(self).mass_spec().len() && old(self).live(#[trigger] old(self).mass_spec()[j]) && old(
                    self,
                ).actor(old(self).mass_spec()[j]).awareness >= 0 ==> final(self).map().spec_cell(
                    old(self).actor(old(self).mass_spec()[j]).pos,
                ).in_fov,
    {
        let ghost g0 = self.grid;
        self.grid.clear_fov();
        let mut k: usize = 0;
        while k < self.player_mass.len()
            invariant
                old(self).kept_setup(&*self),
                self.grid.wf(),
                old(self).sight_only(&*self),
                self.grid.spec_width() == g0.spec_width(),
                self.grid.spec_height() == g0.spec_height(),
                forall|c: Coord| #[trigger] self.grid.spec_cell(c).walkable == g0.spec_cell(c).walkable
                    && self.grid.spec_cell(c).transparent == g0.spec_cell(c).transparent
                    && self.grid.spec_cell(c).explored == g0.spec_cell(c).explored,
                k <= self.player_mass@.len(),
                g0 == old(self).map(),
                old(self).inv(),
                forall|j: int, c: Coord|
                    0 <= j < k && old(self).live(old(self).mass_spec()[j]) && old(self).actor(old(self).mass_spec()[j]).awareness >= 0
                        && g0.spec_in_bounds(c) && #[trigger] g0.cast_lit(
                        old(self).actor(old(self).mass_spec()[j]).pos,
                        old(self).actor(old(self).mass_spec()[j]).awareness as int,
                        true,
                        c,
                    ) ==> self.grid.spec_cell(c).in_fov,
            decreases self.player_mass@.len() - k,
        {
            let light = match self.actors.get(self.player_mass[k]) {
                Some(a) => {
                    if a.awareness >= 0 {
                        Some((a.pos, a.awareness))
                    } else {
                        None
                    }
                },
                None => None,
            };
            match light {
                Some((pos, radius)) => {
                    let ghost b = self.grid;
                    self.grid.append_fov(pos, radius, true);
                    proof {
                        assert(old(self).actors == self.actors && old(self).player_mass == self.player_mass);
                        old(self).lemma_live_on_map(self.player_mass@[k as int]);
                        assert forall|d: Coord| #[trigger] b.spec_cell(d).transparent == g0.spec_cell(d).transparent by {
                            assert(b.spec_cell(d).walkable == g0.spec_cell(d).walkable);
                        }
                        assert forall|j: int, c: Coord|
                            0 <= j < k + 1 && old(self).live(old(self).mass_spec()[j]) && old(self).actor(
                                old(self).mass_spec()[j],
                            ).awareness >= 0 && g0.spec_in_bounds(c) && #[trigger] g0.cast_lit(
                                old(self).actor(old(self).mass_spec()[j]).pos,
                                old(self).actor(old(self).mass_spec()[j]).awareness as int,
                                true,
                                c,
                            ) implies self.grid.spec_cell(c).in_fov by {
                            if j < k {
                                assert(b.spec_cell(c).in_fov);
                            } else {
                                g0.lemma_cast_lit_carries(&b, pos, radius as int, true, c);
                            }
                            assert(self.grid.spec_cell(c) == (grid::Cell {
                                in_fov: b.fov_after(pos, radius as int, true, c),
                                ..b.spec_cell(c)
                            }));
                        }
                        assert forall|c: Coord| #[trigger] self.grid.spec_cell(c).walkable == g0.spec_cell(c).walkable
                            && self.grid.spec_cell(c).transparent == g0.spec_cell(c).transparent
                            && self.grid.spec_cell(c).explored == g0.spec_cell(c).explored by {
                            b.lemma_off_map(c);
                            self.grid.lemma_off_map(c);
                            assert(b.spec_cell(c).walkable == g0.spec_cell(c).walkable);
                            if b.spec_in_bounds(pos) && radius >= 0 && b.spec_in_bounds(c) {
                                assert(self.grid.spec_cell(c) == (grid::Cell {
                                    in_fov: b.fov_after(pos, radius as int, true, c),
                                    ..b.spec_cell(c)
                                }));
                            }
                        }
                    }
                },
                None => {},
            }
            k = k + 1;
        }
        proof {
            self.grid.lemma_wf();
            assert forall|c: Coord| #[trigger] g0.spec_cell(c).explored implies self.grid.spec_cell(c).explored by {
                assert(self.grid.spec_cell(c).walkable == g0.spec_cell(c).walkable);
            }
        }
        let ghost g1 = self.grid;
        let w = self.grid.width();
        let h = self.grid.height();
        let cells_n = (w * h) as usize;
        let wu = w as usize;
        let mut i: usize = 0;
        while i < cells_n
            invariant
                old(self).kept_setup(&*self),
                self.grid.wf(),
                old(self).sight_only(&*self),
                forall|c: Coord| g1.spec_in_bounds(c) ==> #[trigger] self.grid.spec_cell(c).in_fov == g1.spec_cell(c).in_fov,
                g1.spec_width() == g0.spec_width(),
                g1.spec_height() == g0.spec_height(),
                cells_n == self.grid.spec_width() * self.grid.spec_height(),
                wu == self.grid.spec_width(),
                self.grid.spec_width() == g0.spec_width(),
                self.grid.spec_height() == g0.spec_height(),
                i <= cells_n,
                forall|c: Coord| #[trigger] self.grid.spec_cell(c).walkable == g0.spec_cell(c).walkable
                    && self.grid.spec_cell(c).transparent == g0.spec_cell(c).transparent,
                forall|c: Coord| #[trigger] g0.spec_cell(c).explored ==> self.grid.spec_cell(c).explored,
                forall|j: int| 0 <= j < i ==> #[trigger] self.grid.spec_cell(coord_of(g0.spec_width(), j)).in_fov
                    ==> self.grid.spec_cell(coord_of(g0.spec_width(), j)).explored,
            decreases cells_n - i,
        {
            proof {
                self.grid.lemma_wf();
                lemma_coord_of(self.grid.spec_width(), self.grid.spec_height(), i as int);
                reveal(coord_of);
            }
            let c = Coord::new((i % wu) as i32, (i / wu) as i32);
            proof {
                assert(c == coord_of(g0.spec_width(), i as int));
            }
            if self.grid.in_fov(c) {
                let ghost b = self.grid;
                self.grid.set_explored(c, true);
                proof {
                    assert forall|j: int| 0 <= j < i implies #[trigger] self.grid.spec_cell(
                        coord_of(g0.spec_width(), j),
                    ).in_fov ==> self.grid.spec_cell(coord_of(g0.spec_width(), j)).explored by {
                        if coord_of(g0.spec_width(), j) != c {
                            assert(self.grid.spec_cell(coord_of(g0.spec_width(), j)) == b.spec_cell(
                                coord_of(g0.spec_width(), j),
                            ));
                        }
                    }
                }
            }
            i = i + 1;
        }
        proof {
            assert forall|c: Coord| #[trigger] self.grid.spec_cell(c).in_fov implies self.grid.spec_cell(c).explored by {
                if self.grid.spec_in_bounds(c) {
                    lemma_flat_index(self.grid.spec_width(), self.grid.spec_height(), c);
                    let j = flat_index(self.grid.spec_width(), c);
                    assert(coord_of(g0.spec_width(), j) == c);
                } else {
                    self.grid.lemma_off_map(c);
                }
            }
            lemma_occupancy_same_ground(old(self).grid, self.grid, self.actors@, self.actor_at@, self.items@, self.item_at@);
            assert forall|j: int|
                0 <= j < old(self).mass_spec().len() && old(self).live(#[trigger] old(self).mass_spec()[j]) && old(
                    self,
                ).actor(old(self).mass_spec()[j]).awareness >= 0 implies self.grid.spec_cell(
                old(self).actor(old(self).mass_spec()[j]).pos,
            ).in_fov by {
                let x = old(self).mass_spec()[j];
                old(self).lemma_live_on_map(x);
                g0.lemma_cast_lights_origin(old(self).actor(x).pos, old(self).actor(x).awareness as int);
                assert(g0.cast_lit(old(self).actor(x).pos, old(self).actor(x).awareness as int, true, old(self).actor(x).pos));
            }
        }
    }

    // -- digestion and production -----------------------------------------------------

    /// Set a dissolving human's banked overfill; nothing else changes.
    fn set_overfill(&mut self, id: ActorId, value: i32)
        requires
            old(self).inv(),
        ensures
            final(self).inv(),
            old(self).kept_setup(&*final(self)),
            *final(self) == (Sim { actors: final(self).actors, ..*old(self) }),
            same_bodies(old(self).arena()@, final(self).arena()@),
            old(self).live(id) && old(self).actor(id).extra is Dissolving ==> final(self).arena()@ == old(
                self,
            ).arena()@.update(
                id@ as int,
                Some(actors::Actor { extra: actors::Extra::Dissolving { overfill: value }, ..old(self).actor(id) }),
            ),
            !(old(self).live(id) && old(self).actor(id).extra is Dissolving) ==> *final(self) == *old(self),
    {
        let dissolving = match self.actors.get(id) {
            Some(a) => match a.extra {
                actors::Extra::Dissolving { .. } => true,
                _ => false,
            },
            None => false,
        };
        if !dissolving {
            return ;
        }
        let ghost b = self.actors@;
        match self.actors.get_mut(id) {
            Some(a) => {
                a.extra = actors::Extra::Dissolving { overfill: value };
            },
            None => {},
        }
        proof {
            assert(same_bodies(b, self.actors@));
            lemma_occupancy_same_bodies(self.grid, b, self.actors@, self.actor_at@, self.items@, self.item_at@);
        }
    }

    /// What a finished corpse yields, picked at random among what its kind
    /// digests to: a caravan's cargo is a coin flip.
    fn digest_product(&mut self, kind: Kind) -> (r: Option<Kind>)
        requires
            old(self).inv(),
        ensures
            final(self).inv(),
            old(self).kept_setup(&*final(self)),
            old(self).chance_only(&*final(self)),
            r is None <==> actors::kind_digests_to(kind).len() == 0,
            r matches Some(k) ==> actors::kind_digests_to(kind).contains(k),
    {
        self.pick(kind.digests_to())
    }

    /// Whether `id` is a dissolving human with a whole product banked.
    pub closed spec fn overfull(&self, id: ActorId) -> bool {
        &&& self.live(id)
        &&& match self.actor(id).extra {
            actors::Extra::Dissolving { overfill } => overfill >= self.actor(id).max_hp,
            _ => false,
        }
    }

    /// Cash in a dissolving human's banked overfill for a free product,
    /// dropped on the nearest cell nobody stands on. Returns whether the
    /// overfill was due, whether or not there was room for the product.
    pub(crate) fn produce_if_overfull(&mut self, id: ActorId) -> (due: bool)
        requires
            old(self).inv(),
        ensures
            final(self).inv(),
            old(self).kept_setup(&*final(self)),
            due == old(self).overfull(id),
            !due ==> *final(self) == *old(self),
    {
        let (kind, pos, due) = match self.actors.get(id) {
            Some(a) => match a.extra {
                actors::Extra::Dissolving { overfill } => (a.kind, a.pos, overfill >= a.max_hp),
                _ => {
                    return false;
                },
            },
            None => {
                return false;
            },
        };
        if !due {
            return false;
        }
        let drops = self.nearest_no_actor(pos);
        let cell = match self.pick(drops.as_slice()) {
            Some(c) => c,
            None => {
                return true;
            },
        };
        let product = match self.digest_product(kind) {
            Some(p) => p,
            None => {
                return true;
            },
        };
        proof {
            assert(drops@.contains(cell));
            let k = choose|k: int| 0 <= k < drops@.len() && drops@[k] == cell;
            assert(self.drop_ok(Legal::NoActor, drops@[k]));
            self.grid.lemma_off_map(cell);
        }
        self.add_actor(product, cell);
        self.set_overfill(id, 0);
        true
    }

    /// One turn of a dissolving human coming apart: it loses a hit point,
    /// and at none left every butcher in the mass squeezes one more product
    /// out of it before it turns into what it digests to.
    pub fn digest(&mut self, id: ActorId)
        requires
            old(self).inv(),
            old(self).live(id) ==> old(self).actor(id).hp > i32::MIN,
        ensures
            final(self).inv(),
            old(self).kept_setup(&*final(self)),
            !old(self).live(id) ==> *final(self) == *old(self),
            old(self).live(id) && old(self).actor(id).hp - 1 > 0 ==> final(self).arena()@ == old(self).arena()@.update(
                id@ as int,
                Some(actors::Actor { hp: (old(self).actor(id).hp - 1) as i32, ..old(self).actor(id) }),
            ),
    {
        let hp = match self.actors.get(id) {
            Some(a) => a.hp - 1,
            None => {
                return ;
            },
        };
        let ghost b = self.actors@;
        match self.actors.get_mut(id) {
            Some(a) => {
                a.hp = hp;
            },
            None => {},
        }
        proof {
            assert(same_bodies(b, self.actors@));
            lemma_occupancy_same_bodies(self.grid, b, self.actors@, self.actor_at@, self.items@, self.item_at@);
        }
        if hp > 0 {
            return ;
        }
        let (kind, pos, max_hp) = match self.actors.get(id) {
            Some(a) => (a.kind, a.pos, a.max_hp),
            None => {
                return ;
            },
        };
        let mut butchers: usize = 0;
        let mut k: usize = 0;
        while k < self.player_mass.len()
            invariant
                old(self).kept_setup(&*self),
                k <= self.player_mass@.len(),
                butchers <= k,
            decreases self.player_mass@.len() - k,
        {
            let butcher = match self.actors.get(self.player_mass[k]) {
                Some(a) => a.kind == Kind::Butcher,
                None => false,
            };
            if butcher {
                butchers = butchers + 1;
            }
            k = k + 1;
        }
        let doubled: i64 = max_hp as i64 * 2;
        let banked: i32 = if doubled > 2147483647 {
            2147483647
        } else if doubled < -2147483648 {
            -2147483648
        } else {
            doubled as i32
        };
        let mut n: usize = 0;
        while n < butchers
            invariant
                old(self).kept_setup(&*self),
                self.inv(),
                n <= butchers,
            decreases butchers - n,
        {
            self.set_overfill(id, banked);
            self.produce_if_overfull(id);
            n = n + 1;
        }
        let gone = self.remove_actor(id);
        match gone {
            Some(a) => {
                match self.digest_product(kind) {
                    Some(product) => {
                        self.add_actor(product, a.pos);
                        let parts: [&str; 5] = ["The ", kind.name(), " finishes dissolving into a ", product.name(), "."];
                        let line = join_text(&parts);
                        self.say(line.as_str());
                    },
                    None => {},
                }
            },
            None => {},
        }
        self.cue(Cue::Digest);
    }

    /// Unupgraded nuclei in the mass.
    pub closed spec fn plain_nuclei(&self) -> nat {
        self.player_mass@.filter(|id: ActorId| self.live(id) && actors::is_unupgraded_nucleus(self.actor(id).kind)).len()
    }

    /// What a producer makes this time. The chloroplast and the bioreactor
    /// make cytoplasm; the forge bone or circuitry at even odds; the soup a
    /// membrane, a chloroplast or a nucleus, and no more nuclei once the
    /// mass holds more than four unupgraded ones. The cap counts nuclei
    /// only, so upgraded cores do not hold it back.
    fn product_of(&mut self, kind: Kind) -> (r: Option<Kind>)
        requires
            old(self).inv(),
        ensures
            final(self).inv(),
            old(self).kept_setup(&*final(self)),
            old(self).chance_only(&*final(self)),
            kind == Kind::Chloroplast || kind == Kind::Bioreactor ==> r == Some(Kind::Cytoplasm),
            kind == Kind::BiometalForge ==> r == Some(Kind::Calcium) || r == Some(Kind::Electronics),
            kind == Kind::PrimordialSoup ==> r == Some(Kind::Membrane) || r == Some(Kind::Chloroplast) || r == Some(
                Kind::Nucleus,
            ),
            kind == Kind::PrimordialSoup && old(self).plain_nuclei() > SOUP_NUCLEUS_CAP ==> r != Some(Kind::Nucleus),
            !(kind == Kind::Chloroplast || kind == Kind::Bioreactor || kind == Kind::BiometalForge || kind
                == Kind::PrimordialSoup) ==> r is None,
    {
        match kind {
            Kind::Chloroplast | Kind::Bioreactor => Some(Kind::Cytoplasm),
            Kind::BiometalForge => {
                let options: [Kind; 2] = [Kind::Calcium, Kind::Electronics];
                self.pick(&options)
            },
            Kind::PrimordialSoup => {
                let mut plain: usize = 0;
                let mut k: usize = 0;
                while k < self.player_mass.len()
                    invariant
                        old(self).kept_setup(&*self),
                        k <= self.player_mass@.len(),
                        plain as nat == self.player_mass@.take(k as int).filter(
                            |id: ActorId| self.live(id) && actors::is_unupgraded_nucleus(self.actor(id).kind),
                        ).len(),
                    decreases self.player_mass@.len() - k,
                {
                    let id = self.player_mass[k];
                    let counted = match self.actors.get(id) {
                        Some(a) => actors::is_unupgraded_nucleus(a.kind),
                        None => false,
                    };
                    proof {
                        let pred = |x: ActorId| self.live(x) && actors::is_unupgraded_nucleus(self.actor(x).kind);
                        assert(self.player_mass@.take(k + 1) == self.player_mass@.take(k as int).push(id));
                        self.player_mass@.take(k as int).lemma_filter_push(id, pred);
                        actors::lemma_count_live_le(self.actors@);
                        self.player_mass@.take(k as int).lemma_filter_len(pred);
                    }
                    if counted {
                        plain = plain + 1;
                    }
                    k = k + 1;
                }
                proof {
                    assert(self.player_mass@.take(k as int) == self.player_mass@);
                }
                let choice = if plain > SOUP_NUCLEUS_CAP {
                    rand_inclusive(&mut self.rng, 0, 3)
                } else {
                    rand_inclusive(&mut self.rng, 0, 4)
                };
                Some(
                    if choice < 2 {
                        Kind::Membrane
                    } else if choice < 4 {
                        Kind::Chloroplast
                    } else {
                        Kind::Nucleus
                    },
                )
            },
            _ => None,
        }
    }

    /// Whether a kind makes something each cycle.
    pub open spec fn is_producer(k: Kind) -> bool {
        k == Kind::Chloroplast || k == Kind::Bioreactor || k == Kind::BiometalForge || k == Kind::PrimordialSoup
    }

    /// Whether `made` is something a producer of kind `from` can make.
    pub open spec fn product_ok(from: Kind, made: Kind) -> bool {
        ||| (from == Kind::Chloroplast || from == Kind::Bioreactor) && made == Kind::Cytoplasm
        ||| from == Kind::BiometalForge && (made == Kind::Calcium || made == Kind::Electronics)
        ||| from == Kind::PrimordialSoup && (made == Kind::Membrane || made == Kind::Chloroplast || made
            == Kind::Nucleus)
    }

    /// Spawn this producer's product on the nearest cell nobody stands on.
    /// Returns whether anything was made.
    fn produce(&mut self, id: ActorId) -> (made: bool)
        requires
            old(self).inv(),
        ensures
            final(self).inv(),
            old(self).kept_setup(&*final(self)),
            !old(self).live(id) ==> !made && *final(self) == *old(self),
            !made ==> same_bodies(old(self).arena()@, final(self).arena()@) && final(self).floor() == old(self).floor(),
            made ==> old(self).live(id),
            old(self).live(id) && !Sim::is_producer(old(self).actor(id).kind) ==> !made,
            made ==> exists|n: ActorId|
                n@ == old(self).arena()@.len() && #[trigger] final(self).live(n) && Sim::product_ok(
                    old(self).actor(id).kind,
                    final(self).actor(n).kind,
                ),
    {
        let (kind, pos) = match self.actors.get(id) {
            Some(a) => (a.kind, a.pos),
            None => {
                return false;
            },
        };
        let drops = self.nearest_no_actor(pos);
        let cell = match self.pick(drops.as_slice()) {
            Some(c) => c,
            None => {
                return false;
            },
        };
        let product = match self.product_of(kind) {
            Some(p) => p,
            None => {
                return false;
            },
        };
        proof {
            let k = choose|k: int| 0 <= k < drops@.len() && drops@[k] == cell;
            assert(self.drop_ok(Legal::NoActor, drops@[k]));
            self.grid.lemma_off_map(cell);
        }
        let ghost before = *self;
        let made = self.add_actor(product, cell);
        proof {
            assert(before.arena()@.len() == old(self).arena()@.len());
            assert(Sim::product_ok(kind, self.actor(made).kind));
            assert(self.live(made));
        }
        true
    }

    /// One turn of a producer's cycle: the countdown ticks, and at zero a
    /// product is made and the countdown starts again from the producer's
    /// own delay. Every member of the line runs on that same cycle; a
    /// producer with nowhere to put its product tries again next turn.
    pub fn produce_act(&mut self, id: ActorId)
        requires
            old(self).inv(),
            old(self).live(id) ==> (old(self).actor(id).extra matches actors::Extra::Chloroplast { next_food, .. } ==> next_food
                > i32::MIN),
        ensures
            final(self).inv(),
            old(self).kept_setup(&*final(self)),
            !old(self).live(id) || !(old(self).actor(id).extra is Chloroplast) ==> *final(self) == *old(self),
            old(self).live(id) && (old(self).actor(id).extra matches actors::Extra::Chloroplast { next_food, .. } && next_food
                > 1) ==> final(self).live(id) && (final(self).actor(id).extra matches actors::Extra::Chloroplast {
                next_food,
                ..
            } && next_food == old(self).actor(id).extra->next_food - 1) && same_bodies(
                old(self).arena()@,
                final(self).arena()@,
            ) && final(self).floor() == old(self).floor(),
    {
        let next = match self.actors.get(id) {
            Some(a) => match a.extra {
                actors::Extra::Chloroplast { next_food, .. } => next_food - 1,
                _ => {
                    return ;
                },
            },
            None => {
                return ;
            },
        };
        let ghost b = self.actors@;
        match self.actors.get_mut(id) {
            Some(a) => match &mut a.extra {
                actors::Extra::Chloroplast { next_food, .. } => {
                    *next_food = next;
                },
                _ => {},
            },
            None => {},
        }
        proof {
            assert(same_bodies(b, self.actors@));
            lemma_occupancy_same_bodies(self.grid, b, self.actors@, self.actor_at@, self.items@, self.item_at@);
        }
        if next > 0 {
            return ;
        }
        if !self.produce(id) {
            return ;
        }
        let ghost c = self.actors@;
        match self.actors.get_mut(id) {
            Some(a) => {
                let cycle = a.delay;
                match &mut a.extra {
                    actors::Extra::Chloroplast { next_food, .. } => {
                        *next_food = cycle;
                    },
                    _ => {},
                }
            },
            None => {},
        }
        proof {
            assert(same_bodies(c, self.actors@));
            lemma_occupancy_same_bodies(self.grid, c, self.actors@, self.actor_at@, self.items@, self.item_at@);
        }
        self.cue(Cue::Produce);
    }

    /// Whether `x` stands right beside the live actor `id` and is an
    /// organelle off the nucleus line that could be upgraded.
    pub closed spec fn craft_fits(&self, id: ActorId, x: ActorId) -> bool {
        &&& self.live(id)
        &&& exists|c: Coord| #[trigger] self.grid.adjacent_spec(self.actor(id).pos, false).contains(c) && self.occupant(c) == Some(x)
        &&& self.live(x)
        &&& actors::kind_upgrade_paths(self.actor(x).kind).len() > 0
        &&& !is_nucleus_family(self.actor(x).kind)
    }

    /// Whether some organelle beside the material `id` takes `r`.
    pub closed spec fn can_craft(&self, id: ActorId, r: actors::Resource) -> bool {
        exists|x: ActorId| #[trigger] self.craft_fits(id, x) && self.accepts(x, r)
    }

    /// A crafting material's turn: it offers itself to its neighbours in a
    /// random order and is spent on the first that takes it. Nuclei are
    /// skipped, which is what makes walking a nucleus into a material the
    /// only way to upgrade one.
    pub fn craft(&mut self, id: ActorId)
        requires
            old(self).inv(),
        ensures
            final(self).inv(),
            old(self).kept_setup(&*final(self)),
            !old(self).live(id) ==> *final(self) == *old(self),
            (actors::kind_provides(old(self).actor(id).kind) matches Some(r) && old(self).can_craft(id, r))
                ==> final(self).fuel_m() < old(self).fuel_m(),
            !(actors::kind_provides(old(self).actor(id).kind) matches Some(r) && old(self).can_craft(id, r))
                ==> old(self).chance_only(&*final(self)),
    {
        let (resource, pos) = match self.actors.get(id) {
            Some(a) => match a.kind.provides() {
                Some(r) => (r, a.pos),
                None => {
                    return ;
                },
            },
            None => {
                return ;
            },
        };
        let ghost o = *self;
        let around = self.grid.adjacent(pos);
        proof {
            self.grid.lemma_adjacent_distinct(pos, false);
        }
        let mut candidates: Vec<ActorId> = Vec::new();
        let mut k: usize = 0;
        while k < around.len()
            invariant
                old(self).kept_setup(&*self),
                self.inv(),
                *self == o,
                o.live(id),
                o.actor(id).pos == pos,
                around@ == o.grid.adjacent_spec(pos, false),
                k <= around@.len(),
                around@.len() <= 4,
                candidates@.len() <= k,
                forall|m: int| 0 <= m < candidates@.len() ==> o.craft_fits(id, #[trigger] candidates@[m]),
                forall|x: ActorId|
                    #[trigger] o.craft_fits(id, x) && (exists|j: int| 0 <= j < k && o.occupant(around@[j]) == Some(x))
                        ==> candidates@.contains(x),
            decreases around@.len() - k,
        {
            let ghost cb = candidates@;
            match self.actor_at(around[k]) {
                Some(a) => {
                    let fits = match self.actors.get(a) {
                        Some(x) => actors::is_upgradable(x.kind) && !is_nucleus_family(x.kind),
                        None => false,
                    };
                    if fits {
                        candidates.push(a);
                        proof {
                            assert(around@.contains(around@[k as int]));
                            assert(o.craft_fits(id, a));
                            assert(candidates@[candidates@.len() - 1] == a);
                            assert forall|m: int| 0 <= m < candidates@.len() implies o.craft_fits(id, #[trigger] candidates@[m]) by {
                                if m < cb.len() {
                                    assert(candidates@[m] == cb[m]);
                                }
                            }
                        }
                    }
                },
                None => {},
            }
            proof {
                assert forall|x: ActorId|
                    #[trigger] o.craft_fits(id, x) && (exists|j: int| 0 <= j < k + 1 && o.occupant(around@[j]) == Some(x))
                        implies candidates@.contains(x) by {
                    if exists|j: int| 0 <= j < k && o.occupant(around@[j]) == Some(x) {
                        assert(cb.contains(x));
                        let z = choose|z: int| 0 <= z < cb.len() && cb[z] == x;
                        assert(candidates@[z] == x);
                    } else {
                        assert(o.occupant(around@[k as int]) == Some(x));
                        assert(candidates@[candidates@.len() - 1] == x);
                    }
                }
            }
            k = k + 1;
        }
        proof {
            assert forall|x: ActorId| #[trigger] o.craft_fits(id, x) implies candidates@.contains(x) by {
                let c = choose|c: Coord| #[trigger] o.grid.adjacent_spec(o.actor(id).pos, false).contains(c) && o.occupant(c) == Some(x);
                let j = choose|j: int| 0 <= j < around@.len() && around@[j] == c;
                assert(o.occupant(around@[j]) == Some(x));
            }
        }
        while candidates.len() > 0
            invariant
                old(self).kept_setup(&*self),
                self.inv(),
                o.inv(),
                old(self).live(id),
                *old(self) == o,
                o.chance_only(&*self),
                actors::kind_provides(o.actor(id).kind) == Some(resource),
                candidates@.len() <= 4,
                forall|m: int| 0 <= m < candidates@.len() ==> o.craft_fits(id, #[trigger] candidates@[m]),
                forall|x: ActorId| #[trigger] o.craft_fits(id, x) && o.accepts(x, resource) ==> candidates@.contains(x),
            decreases candidates@.len(),
        {
            let pick = match rand_index(&mut self.rng, candidates.len()) {
                Some(p) => p,
                None => {
                    return ;
                },
            };
            let ghost cb = candidates@;
            let recipient = candidates.remove(pick);
            let ghost before = *self;
            assert(o.craft_fits(id, cb[pick as int]));
            if self.upgrade(recipient, resource) {
                proof {
                    assert(before.accepts(recipient, resource) == o.accepts(recipient, resource));
                    assert(o.craft_fits(id, recipient) && o.accepts(recipient, resource));
                    assert(o.can_craft(id, resource));
                    assert(actors::kind_upgrade_paths(o.actor(id).kind).len() == 0);
                    assert(id != recipient);
                    assert(before.arena()@.update(recipient@ as int, None)[id@ as int] == before.arena()@[id@ as int]);
                    assert(self.live(id) && self.actor(id).kind == o.actor(id).kind);
                }
                self.spend_material(id);
                return ;
            }
            proof {
                assert(!o.accepts(recipient, resource));
                assert forall|x: ActorId| #[trigger] o.craft_fits(id, x) && o.accepts(x, resource) implies candidates@.contains(x) by {
                    assert(cb.contains(x));
                    let z = choose|z: int| 0 <= z < cb.len() && cb[z] == x;
                    assert(z != pick);
                    let z2 = if z < pick { z } else { z - 1 };
                    assert(candidates@[z2] == x);
                }
                assert forall|m: int| 0 <= m < candidates@.len() implies o.craft_fits(id, #[trigger] candidates@[m]) by {
                    let om = if m < pick { m } else { m + 1 };
                    assert(candidates@[m] == cb[om]);
                }
            }
        }
        proof {
            if o.can_craft(id, resource) {
                let x = choose|x: ActorId| #[trigger] o.craft_fits(id, x) && o.accepts(x, resource);
                assert(candidates@.contains(x));
            }
        }
    }

    /// What a cultivator does to one corpse beside it: heal it by up to
    /// two, short of its maximum, and bank one more unit of overfill.
    pub open spec fn nursed(a: actors::Actor) -> actors::Actor {
        actors::Actor {
            hp: if a.hp < a.max_hp {
                if a.max_hp - a.hp < CULTIVATOR_HEAL {
                    a.max_hp
                } else {
                    (a.hp + CULTIVATOR_HEAL) as i32
                }
            } else {
                a.hp
            },
            extra: match a.extra {
                actors::Extra::Dissolving { overfill } => actors::Extra::Dissolving {
                    overfill: if overfill < i32::MAX {
                        (overfill + OVERFILL_RATE) as i32
                    } else {
                        overfill
                    },
                },
                e => e,
            },
            ..a
        }
    }

    /// Whether a corpse has banked enough overfill to yield a product.
    pub open spec fn brimming(a: actors::Actor) -> bool {
        match a.extra {
            actors::Extra::Dissolving { overfill } => overfill >= a.max_hp,
            _ => false,
        }
    }

    /// Whether `x` is a dissolving corpse on a cell beside `pos`.
    pub closed spec fn corpse_beside(&self, pos: Coord, x: ActorId) -> bool {
        exists|c: Coord|
            taxi_spec(c, pos) == 1 && #[trigger] self.occupant(c) == Some(x) && actors::is_dissolving(
                self.actor(x).kind,
            )
    }

    /// Tend one corpse: it is nursed, and yields its product if that filled
    /// it. Nothing else happens unless it filled.
    pub fn nurse(&mut self, corpse: ActorId)
        requires
            old(self).inv(),
        ensures
            final(self).inv(),
            old(self).kept_setup(&*final(self)),
            !old(self).live(corpse) ==> *final(self) == *old(self),
            old(self).live(corpse) && !Self::brimming(Self::nursed(old(self).actor(corpse))) ==> (final(self).arena()@
                == old(self).arena()@.update(corpse@ as int, Some(Self::nursed(old(self).actor(corpse))))
                && old(self).arena_only(&*final(self))),
    {
        if !self.actors.contains(corpse) {
            return ;
        }
        let ghost b = self.actors@;
        match self.actors.get_mut(corpse) {
            Some(a) => {
                if a.hp < a.max_hp {
                    let gap: i64 = a.max_hp as i64 - a.hp as i64;
                    let heal: i64 = if gap < CULTIVATOR_HEAL as i64 {
                        gap
                    } else {
                        CULTIVATOR_HEAL as i64
                    };
                    a.hp = (a.hp as i64 + heal) as i32;
                }
                match &mut a.extra {
                    actors::Extra::Dissolving { overfill } => {
                        if *overfill < i32::MAX {
                            *overfill = *overfill + OVERFILL_RATE;
                        }
                    },
                    _ => {},
                }
            },
            None => {
                return ;
            },
        }
        proof {
            assert(same_bodies(b, self.actors@));
            lemma_occupancy_same_bodies(self.grid, b, self.actors@, self.actor_at@, self.items@, self.item_at@);
            assert(self.actors@ == b.update(corpse@ as int, Some(Self::nursed(old(self).actor(corpse)))));
        }
        self.produce_if_overfull(corpse);
    }

    /// A cultivator's turn: every dissolving corpse beside it is nursed, in
    /// the order its neighbours are listed. With no corpse beside it nothing
    /// happens.
    pub fn cultivate(&mut self, id: ActorId)
        requires
            old(self).inv(),
        ensures
            final(self).inv(),
            old(self).kept_setup(&*final(self)),
            !old(self).live(id) ==> *final(self) == *old(self),
            old(self).live(id) && (forall|c: Coord|
                taxi_spec(c, old(self).actor(id).pos) == 1 && #[trigger] old(self).occupant(c) is Some
                    ==> !actors::is_dissolving(old(self).actor(old(self).occupant(c)->0).kind))
                ==> *final(self) == *old(self),
    {
        let pos = match self.actors.get(id) {
            Some(a) => a.pos,
            None => {
                return ;
            },
        };
        let ghost o = *self;
        let around = self.grid.adjacent(pos);
        proof {
            self.grid.lemma_adjacent_spec(pos);
        }
        let mut corpses: Vec<ActorId> = Vec::new();
        let mut k: usize = 0;
        while k < around.len()
            invariant
                old(self).kept_setup(&*self),
                self.inv(),
                *self == o,
                k <= around@.len(),
                around@ == self.grid.adjacent_spec(pos, false),
                self.grid.wf(),
                forall|m: int| 0 <= m < around@.len() ==> taxi_spec(pos, #[trigger] around@[m]) == 1,
                forall|m: int| 0 <= m < corpses@.len() ==> self.corpse_beside(pos, #[trigger] corpses@[m]),
            decreases around@.len() - k,
        {
            match self.actor_at(around[k]) {
                Some(a) => {
                    let dissolving = match self.actors.get(a) {
                        Some(x) => actors::is_dissolving(x.kind),
                        None => false,
                    };
                    if dissolving {
                        let ghost before = corpses@;
                        corpses.push(a);
                        proof {
                            let c = around@[k as int];
                            assert(taxi_spec(pos, c) == 1);
                            assert(taxi_spec(c, pos) == 1);
                            assert forall|m: int| 0 <= m < corpses@.len() implies self.corpse_beside(
                                pos,
                                #[trigger] corpses@[m],
                            ) by {
                                if m < before.len() {
                                    assert(corpses@[m] == before[m]);
                                } else {
                                    assert(self.occupant(c) == Some(corpses@[m]));
                                }
                            }
                        }
                    }
                },
                None => {},
            }
            k = k + 1;
        }
        proof {
            if corpses@.len() > 0 {
                assert(self.corpse_beside(pos, corpses@[0]));
                let c = choose|c: Coord|
                    taxi_spec(c, pos) == 1 && #[trigger] self.occupant(c) == Some(corpses@[0])
                        && actors::is_dissolving(self.actor(corpses@[0]).kind);
                assert(self.occupant(c) is Some);
            }
        }
        let mut j: usize = 0;
        while j < corpses.len()
            invariant
                old(self).kept_setup(&*self),
                self.inv(),
                j <= corpses@.len(),
                corpses@.len() == 0 ==> *self == o,
            decreases corpses@.len() - j,
        {
            self.nurse(corpses[j]);
            j = j + 1;
        }
    }

    /// Whether a route for a corpse hauled toward the extractor at `anchor`
    /// may cross `c`: open floor, or your own body, but not another
    /// extractor and not a corpse already beside this one.
    pub open spec fn haul_through(&self, anchor: Coord, c: Coord) -> bool {
        self.passable_spec(Passable::Hauling(anchor), c)
    }

    /// Corpses in the mass that are not already beside this extractor, in
    /// acquisition order.
    pub closed spec fn wanted_spec(&self, id: ActorId) -> Seq<ActorId> {
        let pos = self.actor(id).pos;
        self.player_mass@.filter(
            |m: ActorId| self.live(m) && actors::is_dissolving(self.actor(m).kind) && taxi_spec(self.actor(m).pos, pos) != 1,
        )
    }

    /// The executable form of [`Sim::wanted_spec`]; nothing when the
    /// extractor is gone.
    fn needs_to_reach(&self, id: ActorId) -> (r: Vec<ActorId>)
        requires
            self.inv(),
        ensures
            self.live(id) ==> r@ == self.wanted_spec(id),
            !self.live(id) ==> r@.len() == 0,
    {
        let pos = match self.actors.get(id) {
            Some(a) => a.pos,
            None => {
                return Vec::new();
            },
        };
        let mut out: Vec<ActorId> = Vec::new();
        let mut k: usize = 0;
        while k < self.player_mass.len()
            invariant
                self.inv(),
                self.live(id),
                pos == self.actor(id).pos,
                k <= self.player_mass@.len(),
                out@ == self.player_mass@.take(k as int).filter(
                    |m: ActorId| self.live(m) && actors::is_dissolving(self.actor(m).kind) && taxi_spec(self.actor(m).pos, pos) != 1,
                ),
            decreases self.player_mass@.len() - k,
        {
            let m = self.player_mass[k];
            let keep = match self.actors.get(m) {
                Some(a) => actors::is_dissolving(a.kind) && !touching(a.pos, pos),
                None => false,
            };
            proof {
                let pred = |x: ActorId| self.live(x) && actors::is_dissolving(self.actor(x).kind) && taxi_spec(self.actor(x).pos, pos) != 1;
                assert(self.player_mass@.take(k + 1) == self.player_mass@.take(k as int).push(m));
                self.player_mass@.take(k as int).lemma_filter_push(m, pred);
            }
            if keep {
                out.push(m);
            }
            k = k + 1;
        }
        proof {
            assert(self.player_mass@.take(k as int) == self.player_mass@);
        }
        out
    }

    /// A route for a corpse hauled toward the extractor `extractor`: through
    /// the rest of your body, but not through another extractor and not
    /// through a corpse already being tended.
    fn extractor_path(&self, extractor: ActorId, from: Coord, to: Coord) -> (r: Option<Vec<Coord>>)
        requires
            self.inv(),
        ensures
            !self.live(extractor) ==> r is None,
            r matches Some(p) ==> self.route_ok(p@, from, seq![to], Passable::Hauling(self.actor(extractor).pos)),
    {
        let anchor = match self.actors.get(extractor) {
            Some(a) => a.pos,
            None => {
                return None;
            },
        };
        let targets: Vec<Coord> = vec![to];
        let mut paths = self.shortest_paths_to(from, targets.as_slice(), Passable::Hauling(anchor));
        proof {
            assert(targets@ == seq![to]);
        }
        if paths.len() == 0 {
            None
        } else {
            let p = paths.remove(0);
            proof {
                assert(self.route_ok(p@, from, targets@, Passable::Hauling(anchor)));
            }
            Some(p)
        }
    }

    /// An extractor's turn: for each cell beside it, in a random order, one
    /// corpse from anywhere in the mass that is not already beside it is
    /// hauled a step along a route to that cell.
    pub fn extract(&mut self, id: ActorId)
        requires
            old(self).inv(),
        ensures
            final(self).inv(),
            old(self).kept_setup(&*final(self)),
            !old(self).live(id) ==> *final(self) == *old(self),
            old(self).live(id) && old(self).wanted_spec(id).len() == 0 ==> old(self).chance_only(&*final(self)),
    {
        let pos = match self.actors.get(id) {
            Some(a) => a.pos,
            None => {
                return ;
            },
        };
        let ghost o = *self;
        let mut destinations = self.grid.adjacent_walkable(pos);
        let around = self.grid.adjacent(pos);
        let mut k: usize = 0;
        while k < around.len()
            invariant
                old(self).kept_setup(&*self),
                self.inv(),
                *self == o,
                k <= around@.len(),
                around@.len() <= 4,
                destinations@.len() <= 4 + k,
            decreases around@.len() - k,
        {
            let cell = around[k];
            match self.actor_at(cell) {
                Some(other) => {
                    let solid = match self.actors.get(other) {
                        Some(a) => !actors::is_dissolving(a.kind),
                        None => false,
                    };
                    if solid {
                        destinations.push(cell);
                    }
                },
                None => {},
            }
            k = k + 1;
        }
        let mut order: Vec<Coord> = Vec::new();
        while destinations.len() > 0
            invariant
                old(self).kept_setup(&*self),
                self.inv(),
                o.chance_only(&*self),
                destinations@.len() <= 8,
            decreases destinations@.len(),
        {
            let pick = match rand_index(&mut self.rng, destinations.len()) {
                Some(p) => p,
                None => {
                    break;
                },
            };
            order.push(destinations.remove(pick));
        }
        let mut d: usize = 0;
        while d < order.len()
            invariant
                old(self).kept_setup(&*self),
                self.inv(),
                d <= order@.len(),
                o.live(id),
                o.wanted_spec(id).len() == 0 ==> o.chance_only(&*self),
            decreases order@.len() - d,
        {
            let dest = order[d];
            d = d + 1;
            let mut wants = self.needs_to_reach(id);
            proof {
                if o.wanted_spec(id).len() == 0 {
                    assert(self.actors == o.actors && self.player_mass == o.player_mass);
                    assert(self.live(id));
                    let p1 = |m: ActorId| self.live(m) && actors::is_dissolving(self.actor(m).kind) && taxi_spec(self.actor(m).pos, self.actor(id).pos) != 1;
                    let p2 = |m: ActorId| o.live(m) && actors::is_dissolving(o.actor(m).kind) && taxi_spec(o.actor(m).pos, o.actor(id).pos) != 1;
                    assert(p1 =~= p2);
                    assert(self.wanted_spec(id) == self.player_mass@.filter(p1));
                    assert(o.wanted_spec(id) == o.player_mass@.filter(p2));
                }
            }
            if wants.len() == 0 {
                break;
            }
            while wants.len() > 0
                invariant
                    old(self).kept_setup(&*self),
                    self.inv(),
                    o.live(id),
                    o.wanted_spec(id).len() == 0 ==> o.chance_only(&*self) && wants@.len() == 0,
                decreases wants@.len(),
            {
                if wants.len() > 2147483647usize {
                    break;
                }
                let pick = match rand_index(&mut self.rng, wants.len()) {
                    Some(p) => p,
                    None => {
                        break;
                    },
                };
                let goer = wants[pick];
                let from = match self.actors.get(goer) {
                    Some(a) => a.pos,
                    None => {
                        wants.remove(pick);
                        continue;
                    },
                };
                match self.extractor_path(id, from, dest) {
                    Some(path) => {
                        if path.len() >= 2 {
                            self.attack_move(goer, path[1]);
                        }
                        break;
                    },
                    None => {},
                }
                wants.remove(pick);
            }
        }
    }

    /// A terror core comes off the schedule: everybody it froze goes back on
    /// the clock at the delay they had, and it takes control. The list of
    /// the frozen is emptied, so nobody is put back twice.
    pub fn terror_post_schedule(&mut self, id: ActorId)
        requires
            old(self).inv(),
        ensures
            final(self).inv(),
            old(self).kept_setup(&*final(self)),
            final(self).frightened() == old(self).frightened().filter(|p: (ActorId, ActorId)| p.0 != id),
            old(self).live(id) && (exists|j: int|
                0 <= j < old(self).frightened().len() && (#[trigger] old(self).frightened()[j]).0 == id)
                ==> final(self).active_spec() == Some(id),
            same_places(old(self).arena()@, final(self).arena()@),
            final(self).turn_spec() == old(self).turn_spec(),
            final(self).phase_spec() == old(self).phase_spec(),
            old(self).live(id) && old(self).active_spec() == Some(id) ==> final(self).active_spec() == Some(id),
    {
        let ghost o = *self;
        let ghost f = |t: Terrified| (t.core, t.victim);
        let ghost pred = |p: (ActorId, ActorId)| p.0 != id;
        let mut mine: Vec<Terrified> = Vec::new();
        let mut kept: Vec<Terrified> = Vec::new();
        let mut k: usize = 0;
        while k < self.terrified.len()
            invariant
                old(self).kept_setup(&*self),
                *self == o,
                k <= self.terrified@.len(),
                f == (|t: Terrified| (t.core, t.victim)),
                pred == (|p: (ActorId, ActorId)| p.0 != id),
                kept@.map_values(f) == self.terrified@.take(k as int).map_values(f).filter(pred),
                (exists|j: int| 0 <= j < k && (#[trigger] self.frightened()[j]).0 == id) ==> mine@.len() > 0,
            decreases self.terrified@.len() - k,
        {
            let t = self.terrified[k];
            proof {
                assert(self.terrified@.take(k + 1).map_values(f) =~= self.terrified@.take(k as int).map_values(f).push(f(t)));
                self.terrified@.take(k as int).map_values(f).lemma_filter_push(f(t), pred);
            }
            let ghost kb = kept@;
            let ghost mb = mine@.len();
            if t.core == id {
                mine.push(t);
            } else {
                kept.push(t);
                proof {
                    assert(kept@.map_values(f) =~= kb.map_values(f).push(f(t)));
                }
            }
            proof {
                assert forall|j: int| 0 <= j < k + 1 && (#[trigger] self.frightened()[j]).0 == id implies mine@.len() > 0 by {
                    if j < k {
                        assert(mb > 0);
                    } else {
                        assert(self.frightened()[j] == f(t));
                    }
                }
            }
            k = k + 1;
        }
        proof {
            assert(self.terrified@.take(k as int) =~= self.terrified@);
        }
        self.terrified = kept;
        let ghost after = self.terrified@;
        if mine.len() == 0 {
            return ;
        }
        let mut j: usize = 0;
        while j < mine.len()
            invariant
                old(self).kept_setup(&*self),
                j <= mine@.len(),
                self.inv(),
                self.terrified@ == after,
                same_bodies(o.actors@, self.actors@),
                self.player_turn == o.player_turn,
                self.phase == o.phase,
                self.active == o.active,
            decreases mine@.len() - j,
        {
            let entry = mine[j];
            j = j + 1;
            let delay = match self.actors.get(entry.victim) {
                Some(a) => a.delay,
                None => {
                    continue;
                },
            };
            self.schedule.add(entry.victim, delay);
            let ghost before = self.actors@;
            match self.actors.get_mut(entry.victim) {
                Some(a) => {
                    a.delay = entry.delay;
                },
                None => {},
            }
            proof {
                assert(same_bodies(before, self.actors@));
                lemma_occupancy_same_bodies(self.grid, before, self.actors@, self.actor_at@, self.items@, self.item_at@);
            }
        }
        self.set_active_nucleus(id);
    }

    /// Change an actor's armour; nothing else moves.
    pub fn set_armor(&mut self, id: ActorId, armor: i32)
        requires
            old(self).inv(),
        ensures
            final(self).inv(),
            old(self).kept_setup(&*final(self)),
            old(self).arena_only(&*final(self)),
            !old(self).live(id) ==> *final(self) == *old(self),
            old(self).live(id) ==> final(self).arena()@ == old(self).arena()@.update(
                id@ as int,
                Some(actors::Actor { armor, ..old(self).actor(id) }),
            ),
    {
        if !self.actors.contains(id) {
            return ;
        }
        let ghost b = self.actors@;
        match self.actors.get_mut(id) {
            Some(a) => {
                a.armor = armor;
            },
            None => {},
        }
        proof {
            assert(same_bodies(b, self.actors@));
            lemma_occupancy_same_bodies(self.grid, b, self.actors@, self.actor_at@, self.items@, self.item_at@);
        }
    }

    /// Change what an actor is, leaving where it stands, its alignment and
    /// every other field as they were.
    pub fn set_kind(&mut self, id: ActorId, kind: Kind)
        requires
            old(self).inv(),
        ensures
            final(self).inv(),
            old(self).kept_setup(&*final(self)),
            old(self).arena_only(&*final(self)),
            !old(self).live(id) ==> *final(self) == *old(self),
            old(self).live(id) ==> final(self).arena()@ == old(self).arena()@.update(
                id@ as int,
                Some(actors::Actor { kind, ..old(self).actor(id) }),
            ),
    {
        if !self.actors.contains(id) {
            return ;
        }
        let ghost b = self.actors@;
        match self.actors.get_mut(id) {
            Some(a) => {
                a.kind = kind;
            },
            None => {},
        }
        proof {
            assert(same_spots(b, self.actors@));
            lemma_occupancy_same_spots(self.grid, b, self.actors@, self.actor_at@, self.items@, self.item_at@);
        }
    }

    /// Reshape one cell of the map. A cell somebody stands on cannot be made
    /// walkable.
    pub fn set_props(&mut self, c: Coord, transparent: bool, walkable: bool, explored: bool)
        requires
            old(self).inv(),
            walkable ==> old(self).occupant(c) is None,
        ensures
            final(self).inv(),
            old(self).kept_setup(&*final(self)),
            old(self).sight_only(&*final(self)),
            final(self).map().spec_width() == old(self).map().spec_width(),
            final(self).map().spec_height() == old(self).map().spec_height(),
            old(self).map().spec_in_bounds(c) ==> final(self).map().spec_cell(c) == (grid::Cell {
                transparent,
                walkable,
                explored,
                in_fov: old(self).map().spec_cell(c).in_fov,
            }),
            forall|d: Coord| d != c ==> #[trigger] final(self).map().spec_cell(d) == old(self).map().spec_cell(d),
    {
        let ghost g = self.grid;
        self.grid.set_props(c, transparent, walkable, explored);
        proof {
            g.lemma_wf();
            reveal(occupancy_agrees);
            if !walkable {
                assert forall|n: nat| #[trigger] holds(self.actors@, n) implies {
                    let at = self.actor_at@[flat_index(self.grid.spec_width(), self.actors@[n as int]->0.pos)];
                    &&& self.grid.spec_in_bounds(self.actors@[n as int]->0.pos)
                    &&& at is Some
                    &&& at->0@ == n
                    &&& !self.grid.spec_cell(self.actors@[n as int]->0.pos).walkable
                } by {
                    let p = self.actors@[n as int]->0.pos;
                    if p != c {
                        assert(self.grid.spec_cell(p) == g.spec_cell(p));
                    }
                }
            } else {
                if g.spec_in_bounds(c) {
                    lemma_flat_index(g.spec_width(), g.spec_height(), c);
                }
                lemma_occupancy_new_grid(g, self.grid, c, self.actors@, self.actor_at@, self.items@, self.item_at@);
            }
        }
    }

    /// Mark a cell as aimed at by `owner`, as a hunter painting a line does.
    pub fn paint(&mut self, pos: Coord, owner: ActorId)
        requires
            old(self).inv(),
        ensures
            final(self).inv(),
            old(self).kept_setup(&*final(self)),
            final(self).reticles_spec() == old(self).reticles_spec().push(Reticle { pos, owner }),
    {
        self.reticles.push(Reticle { pos, owner });
    }

    // -- drawing ------------------------------------------------------------------------

    /// Floor, wall, or nothing at all where you have never been. Rock is what
    /// has nothing on it and cannot be walked, since standing on a cell also
    /// makes it unwalkable.
    pub closed spec fn base_look(&self, c: Coord) -> CellView {
        let cell = self.grid.spec_cell(c);
        let rock = !cell.walkable && self.occupant(c) is None && self.lying(c) is None;
        if cell.in_fov {
            if rock {
                CellView { glyph: '#', fg: palette::WALL_FOV, bg: palette::WALL_BACKGROUND_FOV }
            } else {
                CellView { glyph: '.', fg: palette::FLOOR_FOV, bg: palette::FLOOR_BACKGROUND_FOV }
            }
        } else if cell.explored {
            if rock {
                CellView { glyph: '#', fg: palette::WALL, bg: palette::WALL_BACKGROUND }
            } else {
                CellView { glyph: '.', fg: palette::FLOOR, bg: palette::FLOOR_BACKGROUND }
            }
        } else {
            CellView { glyph: ' ', fg: palette::FLOOR_BACKGROUND, bg: palette::FLOOR_BACKGROUND }
        }
    }

    /// The executable form of [`Sim::base_look`].
    fn base_tile(&self, c: Coord) -> (r: CellView)
        requires
            self.inv(),
        ensures
            r == self.base_look(c),
    {
        let cell = self.grid.cell(c);
        let rock = self.is_wall(c);
        if cell.in_fov {
            if rock {
                CellView { glyph: '#', fg: palette::WALL_FOV, bg: palette::WALL_BACKGROUND_FOV }
            } else {
                CellView { glyph: '.', fg: palette::FLOOR_FOV, bg: palette::FLOOR_BACKGROUND_FOV }
            }
        } else if cell.explored {
            if rock {
                CellView { glyph: '#', fg: palette::WALL, bg: palette::WALL_BACKGROUND }
            } else {
                CellView { glyph: '.', fg: palette::FLOOR, bg: palette::FLOOR_BACKGROUND }
            }
        } else {
            CellView { glyph: ' ', fg: palette::FLOOR_BACKGROUND, bg: palette::FLOOR_BACKGROUND }
        }
    }

    /// A live actor's glyph: a ranged human shows an arrow while it is
    /// aiming, on the lit half of the blink.
    pub closed spec fn glyph_of(&self, id: ActorId, blink_on: bool) -> char {
        let a = self.actor(id);
        match a.extra {
            actors::Extra::Ranged(r) => if r.firing < r.firing_time && blink_on {
                view::arrow_for(r.direction)
            } else {
                actors::kind_glyph(a.kind)
            },
            _ => actors::kind_glyph(a.kind),
        }
    }

    /// The executable form of [`Sim::glyph_of`].
    fn actor_glyph(&self, id: ActorId, blink_on: bool) -> (g: char)
        requires
            self.inv(),
            self.live(id),
        ensures
            g == self.glyph_of(id, blink_on),
    {
        let a = match self.actors.get(id) {
            Some(a) => a,
            None => {
                return ' ';
            },
        };
        match &a.extra {
            actors::Extra::Ranged(r) => {
                if r.firing < r.firing_time && blink_on {
                    return if r.direction.x > 0 {
                        view::ARROW_RIGHT
                    } else if r.direction.x < 0 {
                        view::ARROW_LEFT
                    } else if r.direction.y > 0 {
                        view::ARROW_DOWN
                    } else {
                        view::ARROW_UP
                    };
                }
            },
            _ => {},
        }
        a.kind.stats().glyph
    }

    /// Whether `id` acts within a turn of now.
    pub closed spec fn acting_soon(&self, id: ActorId) -> bool {
        match schedule::first_of(self.schedule.spec_entries(), id) {
            Some(i) => self.schedule.spec_entries()[i].0 <= self.schedule.spec_time() + schedule::TURN,
            None => false,
        }
    }

    /// A live actor's colour: nuclei show whether they are the one you are
    /// steering, and armoured humans whether they act within a turn.
    pub closed spec fn color_of(&self, id: ActorId) -> Rgb {
        let k = self.actor(id).kind;
        match actors::kind_fg_resting(k) {
            None => actors::kind_fg(k),
            Some(resting) => if is_nucleus_family(k) {
                if self.active == Some(id) {
                    actors::kind_fg(k)
                } else {
                    resting
                }
            } else if self.acting_soon(id) {
                actors::kind_fg(k)
            } else {
                resting
            },
        }
    }

    /// The executable form of [`Sim::color_of`].
    fn actor_color(&self, id: ActorId) -> (c: Rgb)
        requires
            self.inv(),
            self.live(id),
        ensures
            c == self.color_of(id),
    {
        let kind = match self.actors.get(id) {
            Some(a) => a.kind,
            None => {
                return palette::FLOOR_BACKGROUND;
            },
        };
        let stats = kind.stats();
        let resting = match stats.fg_resting {
            Some(r) => r,
            None => {
                return stats.fg;
            },
        };
        if is_nucleus_family(kind) {
            return if self.active == Some(id) {
                stats.fg
            } else {
                resting
            };
        }
        let soon = match self.schedule.scheduled_for(id) {
            Some(at) => {
                let now = self.schedule.time();
                at <= now || at - now <= schedule::TURN
            },
            None => false,
        };
        if soon {
            stats.fg
        } else {
            resting
        }
    }

    /// A gate's tile: plain, or on the dark half of the blink its queue of
    /// waiting humans, or its countdown once the next wave is under ten
    /// turns away.
    pub closed spec fn city_look(&self, id: ActorId, blink_on: bool) -> (char, Rgb, Rgb) {
        let plain = (actors::kind_glyph(Kind::City), palette::CITY, view::slime_bg(0));
        match self.actor(id).extra {
            actors::Extra::City(state) => {
                let queued = state.queue@.len();
                if blink_on || (queued == 0 && state.turns_to_next_wave >= 10) {
                    plain
                } else if queued > 0 {
                    (
                        if queued > 9 {
                            '*'
                        } else {
                            view::digit_or_star(queued as u64)
                        },
                        palette::ELECTRONICS,
                        palette::RETICLE_FOREGROUND,
                    )
                } else {
                    (view::digit_or_star(iabs(state.turns_to_next_wave as int) as u64), palette::ELECTRONICS, palette::RETICLE_BACKGROUND)
                }
            },
            _ => plain,
        }
    }

    /// The executable form of [`Sim::city_look`].
    fn city_tile(&self, id: ActorId, blink_on: bool) -> (r: (char, Rgb, Rgb))
        requires
            self.inv(),
            self.live(id),
        ensures
            r == self.city_look(id, blink_on),
    {
        let plain = (Kind::City.stats().glyph, palette::CITY, view::slime_background(0));
        let a = match self.actors.get(id) {
            Some(a) => a,
            None => {
                return plain;
            },
        };
        match &a.extra {
            actors::Extra::City(state) => {
                let queued = state.queue.len();
                if blink_on || (queued == 0 && state.turns_to_next_wave >= 10) {
                    return plain;
                }
                if queued > 0 {
                    let glyph = if queued > 9 {
                        '*'
                    } else {
                        view::digit(queued as u64)
                    };
                    return (glyph, palette::ELECTRONICS, palette::RETICLE_FOREGROUND);
                }
                let t = state.turns_to_next_wave as i64;
                let n: u64 = if t < 0 {
                    (-t) as u64
                } else {
                    t as u64
                };
                (view::digit(n), palette::ELECTRONICS, palette::RETICLE_BACKGROUND)
            },
            _ => plain,
        }
    }

    /// One fully resolved map cell. A reticle in sight blinks over whatever
    /// it covers; everything except a gate is drawn only in sight and falls
    /// back to the remembered floor out of it; a gate seen once is
    /// remembered, drawn in dull stone.
    pub closed spec fn cell_look(&self, c: Coord, blink_on: bool) -> CellView {
        let base = self.base_look(c);
        let cell = self.grid.spec_cell(c);
        let marked = exists|k: int| 0 <= k < self.reticles_spec().len() && (#[trigger] self.reticles_spec()[k]).pos == c;
        if blink_on && cell.in_fov && marked {
            CellView { glyph: 'X', fg: palette::RETICLE_FOREGROUND, bg: palette::RETICLE_BACKGROUND }
        } else if self.occupant(c) is Some && self.live(self.occupant(c)->0) {
            let id = self.occupant(c)->0;
            if is_city(self.actor(id).kind) {
                let t = self.city_look(id, blink_on);
                if cell.in_fov {
                    CellView { glyph: t.0, fg: t.1, bg: t.2 }
                } else if cell.explored {
                    CellView { glyph: t.0, fg: palette::DB_STONE, bg: t.2 }
                } else {
                    base
                }
            } else if cell.in_fov {
                CellView { glyph: self.glyph_of(id, blink_on), fg: self.color_of(id), bg: view::slime_bg(self.actor(id).slime) }
            } else {
                base
            }
        } else if self.lying(c) is Some && cell.in_fov && self.has_item(self.lying(c)->0) {
            let k = self.item(self.lying(c)->0).kind;
            CellView { glyph: actors::item_glyph(k), fg: actors::item_color(k), bg: palette::FLOOR_BACKGROUND_FOV }
        } else {
            base
        }
    }

    /// Out of sight nothing but a gate is drawn: any other actor, an item or
    /// a reticle on a cell the mass cannot see leaves only the remembered
    /// floor or wall, or nothing where it has never been.
    pub proof fn law_fog_hides_all_but_gates(&self, c: Coord, blink_on: bool)
        requires
            !self.map().spec_cell(c).in_fov,
            !(self.occupant(c) is Some && self.live(self.occupant(c)->0) && is_city(self.actor(self.occupant(c)->0).kind)),
        ensures
            self.cell_look(c, blink_on) == self.base_look(c),
            self.cell_look(c, blink_on).glyph == '.' || self.cell_look(c, blink_on).glyph == '#'
                || self.cell_look(c, blink_on).glyph == ' ',
    {
    }

    /// The executable form of [`Sim::cell_look`].
    fn cell_view(&self, c: Coord, blink_on: bool) -> (r: CellView)
        requires
            self.inv(),
        ensures
            r == self.cell_look(c, blink_on),
            !self.map().spec_cell(c).in_fov && !(self.occupant(c) is Some && self.live(self.occupant(c)->0) && is_city(
                self.actor(self.occupant(c)->0).kind,
            )) ==> r == self.base_look(c),
    {
        let base = self.base_tile(c);
        let cell = self.grid.cell(c);
        if blink_on && cell.in_fov && self.reticle_at(c) {
            return CellView { glyph: 'X', fg: palette::RETICLE_FOREGROUND, bg: palette::RETICLE_BACKGROUND };
        }
        match self.actor_at(c) {
            Some(id) => {
                match self.actors.get(id) {
                    Some(a) => {
                        if is_city(a.kind) {
                            let (glyph, fg, bg) = self.city_tile(id, blink_on);
                            if cell.in_fov {
                                return CellView { glyph, fg, bg };
                            } else if cell.explored {
                                return CellView { glyph, fg: palette::DB_STONE, bg };
                            }
                            return base;
                        }
                        if cell.in_fov {
                            return CellView {
                                glyph: self.actor_glyph(id, blink_on),
                                fg: self.actor_color(id),
                                bg: view::slime_background(a.slime),
                            };
                        }
                        return base;
                    },
                    None => {},
                }
            },
            None => {},
        }
        if cell.in_fov {
            match self.item_at(c) {
                Some(i) => match self.items.get(i) {
                    Some(item) => {
                        return CellView {
                            glyph: item.kind.glyph(),
                            fg: item.kind.color(),
                            bg: palette::FLOOR_BACKGROUND_FOV,
                        };
                    },
                    None => {},
                },
                None => {},
            }
        }
        base
    }

    /// The human at slot `i` of the arena, if it is in sight and has
    /// committed to something, as a telegraph.
    pub open spec fn telegraph_of(slot: Option<actors::Actor>, g: Grid) -> Option<Telegraph> {
        match slot {
            Some(a) => if is_npc(a.kind) && g.spec_cell(a.pos).in_fov {
                match a.intent {
                    Some(t) => Some(Telegraph { from: a.pos, to: t.at, kind: t.kind }),
                    None => None,
                }
            } else {
                None
            },
            None => None,
        }
    }

    /// What every human in sight has committed to doing next, in arena
    /// order.
    pub closed spec fn telegraphs_spec(&self) -> Seq<Telegraph> {
        self.actors@.filter_map(|slot: Option<actors::Actor>| Self::telegraph_of(slot, self.grid))
    }

    /// The executable form of [`Sim::telegraphs_spec`]. Only humans in
    /// sight: an arrow over unexplored black would say where a human is as
    /// plainly as drawing it would.
    fn telegraphs(&self) -> (r: Vec<Telegraph>)
        requires
            self.inv(),
        ensures
            r@ == self.telegraphs_spec(),
    {
        let mut out: Vec<Telegraph> = Vec::new();
        proof {
            assert(self.actors@.take(0) =~= Seq::<Option<actors::Actor>>::empty());
        }
        let cap = self.actors.capacity();
        let mut i: usize = 0;
        while i < cap
            invariant
                self.inv(),
                cap == self.actors@.len(),
                i <= cap,
                out@ == self.actors@.take(i as int).filter_map(
                    |slot: Option<actors::Actor>| Self::telegraph_of(slot, self.grid),
                ),
            decreases cap - i,
        {
            proof {
                let f = |slot: Option<actors::Actor>| Self::telegraph_of(slot, self.grid);
                self.actors@.lemma_filter_map_take_succ(f, i as int);
            }
            match self.actors.get(ActorId::from_raw(i)) {
                Some(a) => {
                    if is_npc(a.kind) && self.grid.in_fov(a.pos) {
                        match a.intent {
                            Some(t) => {
                                let ghost before = out@;
                                let tg = Telegraph { from: a.pos, to: t.at, kind: t.kind };
                                out.push(tg);
                                proof {
                                    assert(out@ =~= before + seq![tg]);
                                }
                            },
                            None => {},
                        }
                    }
                },
                None => {},
            }
            i = i + 1;
        }
        proof {
            assert(self.actors@.take(cap as int) == self.actors@);
        }
        out
    }

    /// The nuclei in the mass, in acquisition order.
    pub closed spec fn nuclei_spec(&self) -> Seq<ActorId> {
        self.player_mass@.filter(|id: ActorId| self.live(id) && is_nucleus_family(self.actor(id).kind))
    }

    /// The nuclei in the mass, in acquisition order.
    fn nuclei(&self) -> (r: Vec<ActorId>)
        requires
            self.inv(),
        ensures
            r@ == self.nuclei_spec(),
    {
        let mut out: Vec<ActorId> = Vec::new();
        let mut k: usize = 0;
        while k < self.player_mass.len()
            invariant
                self.inv(),
                k <= self.player_mass@.len(),
                out@ == self.player_mass@.take(k as int).filter(
                    |id: ActorId| self.live(id) && is_nucleus_family(self.actor(id).kind),
                ),
            decreases self.player_mass@.len() - k,
        {
            let id = self.player_mass[k];
            let keep = match self.actors.get(id) {
                Some(a) => is_nucleus_family(a.kind),
                None => false,
            };
            proof {
                let pred = |x: ActorId| self.live(x) && is_nucleus_family(self.actor(x).kind);
                assert(self.player_mass@.take(k + 1) == self.player_mass@.take(k as int).push(id));
                self.player_mass@.take(k as int).lemma_filter_push(id, pred);
            }
            if keep {
                out.push(id);
            }
            k = k + 1;
        }
        proof {
            assert(self.player_mass@.take(k as int) == self.player_mass@);
        }
        out
    }

    /// The navigation hint beside a row: `@` for the active nucleus, and
    /// `A` and `D` for the ones the cycle commands reach from it, once
    /// there is more than one.
    pub closed spec fn hint_for(&self, id: ActorId) -> Option<char> {
        let nuclei = self.nuclei_spec();
        let n = nuclei.len() as int;
        match self.active {
            None => None,
            Some(a) => match first_index(nuclei, a) {
                None => None,
                Some(at) => if n < 2 {
                    None
                } else {
                    match first_index(nuclei, id) {
                        None => None,
                        Some(here) => if here == at {
                            Some('@')
                        } else if here == (if at == 0 {
                            n - 1
                        } else {
                            at - 1
                        }) {
                            Some('A')
                        } else if here == (if at + 1 == n {
                            0
                        } else {
                            at + 1
                        }) {
                            Some('D')
                        } else {
                            None
                        },
                    }
                },
            },
        }
    }

    /// A live organelle's progress bar: production first, then digestion,
    /// then crafting.
    pub closed spec fn meter_of(&self, id: ActorId) -> Option<Meter> {
        let a = self.actor(id);
        match a.extra {
            actors::Extra::Chloroplast { next_food, .. } => Some(
                Meter {
                    level: Gauge { part: next_food, whole: at_least_one(a.delay), counts_down: true },
                    fill: palette::OVERFILL,
                    empty: palette::ROOT_ORGANELLE,
                    overfill: None,
                },
            ),
            actors::Extra::Dissolving { overfill } => Some(
                Meter {
                    level: Gauge { part: a.hp, whole: at_least_one(a.max_hp), counts_down: true },
                    fill: palette::SLIME,
                    empty: palette::ROOT_ORGANELLE,
                    overfill: if overfill > 0 {
                        Some(Gauge { part: overfill, whole: at_least_one(a.max_hp), counts_down: false })
                    } else {
                        None
                    },
                },
            ),
            actors::Extra::Upgrade(state) => match state.path {
                Some(i) => if i < actors::kind_upgrade_paths(a.kind).len() {
                    let p = actors::kind_upgrade_paths(a.kind)[i as int];
                    Some(
                        Meter {
                            level: Gauge { part: state.progress, whole: at_least_one(p.amount), counts_down: false },
                            fill: actors::resource_color(p.resource),
                            empty: match p.resource {
                                actors::Resource::Calcium => palette::RESTING_TANK,
                                actors::Resource::Electronics => palette::RETICLE_BACKGROUND,
                            },
                            overfill: None,
                        },
                    )
                } else {
                    None
                },
                None => None,
            },
            _ => None,
        }
    }

    /// The executable form of [`Sim::meter_of`].
    fn entry_bar(&self, id: ActorId) -> (r: Option<Meter>)
        requires
            self.inv(),
            self.live(id),
        ensures
            r == self.meter_of(id),
    {
        let a = match self.actors.get(id) {
            Some(a) => a,
            None => {
                return None;
            },
        };
        match &a.extra {
            actors::Extra::Chloroplast { next_food, .. } => Some(
                Meter {
                    level: Gauge { part: *next_food, whole: one_or_more(a.delay), counts_down: true },
                    fill: palette::OVERFILL,
                    empty: palette::ROOT_ORGANELLE,
                    overfill: None,
                },
            ),
            actors::Extra::Dissolving { overfill } => Some(
                Meter {
                    level: Gauge { part: a.hp, whole: one_or_more(a.max_hp), counts_down: true },
                    fill: palette::SLIME,
                    empty: palette::ROOT_ORGANELLE,
                    overfill: if *overfill > 0 {
                        Some(Gauge { part: *overfill, whole: one_or_more(a.max_hp), counts_down: false })
                    } else {
                        None
                    },
                },
            ),
            actors::Extra::Upgrade(state) => {
                let paths = a.kind.upgrade_paths();
                match state.path {
                    Some(i) => {
                        if i < paths.len() {
                            let p = paths[i];
                            Some(
                                Meter {
                                    level: Gauge {
                                        part: state.progress,
                                        whole: one_or_more(p.amount),
                                        counts_down: false,
                                    },
                                    fill: p.resource.color(),
                                    empty: match p.resource {
                                        actors::Resource::Calcium => palette::RESTING_TANK,
                                        actors::Resource::Electronics => palette::RETICLE_BACKGROUND,
                                    },
                                    overfill: None,
                                },
                            )
                        } else {
                            None
                        }
                    },
                    None => None,
                }
            },
            _ => None,
        }
    }

    /// The colour a sidebar row draws in: the kind's own, but for the
    /// gravity core's dark green, which is shown as ordinary slime.
    pub open spec fn row_color(k: Kind) -> Rgb {
        if actors::kind_fg(k) == palette::DARK_SLIME {
            palette::SLIME
        } else {
            actors::kind_fg(k)
        }
    }

    /// The navigation hint for `id`, given the nuclei and where the active
    /// one stands among them.
    fn hint(&self, nuclei: &Vec<ActorId>, active_at: Option<usize>, id: ActorId) -> (r: Option<char>)
        requires
            self.inv(),
            nuclei@ == self.nuclei_spec(),
            self.active is None ==> active_at is None,
            self.active matches Some(a) ==> (active_at matches Some(i) ==> first_index(nuclei@, a) == Some(i as int))
                && (active_at is None ==> first_index(nuclei@, a) is None),
        ensures
            r == self.hint_for(id),
    {
        let n = nuclei.len();
        let at = match active_at {
            Some(at) => at,
            None => {
                return None;
            },
        };
        if n < 2 {
            return None;
        }
        proof {
            lemma_first_index(nuclei@, self.active->0);
        }
        match position(nuclei, id) {
            Some(here) => {
                let prev = if at == 0 {
                    n - 1
                } else {
                    at - 1
                };
                let next = if at + 1 == n {
                    0
                } else {
                    at + 1
                };
                if here == at {
                    Some('@')
                } else if here == prev {
                    Some('A')
                } else if here == next {
                    Some('D')
                } else {
                    None
                }
            },
            None => None,
        }
    }

    /// One sidebar row for a live organelle.
    fn entry_for(&self, id: ActorId, selected: bool, nuclei: &Vec<ActorId>, active_at: Option<usize>) -> (e:
        OrganelleEntry)
        requires
            self.inv(),
            self.live(id),
            nuclei@ == self.nuclei_spec(),
            self.active is None ==> active_at is None,
            self.active matches Some(a) ==> (active_at matches Some(i) ==> first_index(nuclei@, a) == Some(i as int))
                && (active_at is None ==> first_index(nuclei@, a) is None),
        ensures
            e.name@ == self.actor(id).name@,
            e.description@ == actors::kind_description(self.actor(id).kind),
            e.fg == Self::row_color(self.actor(id).kind),
            e.pos == self.actor(id).pos,
            e.selected == selected,
            e.examined == (self.cursor == Some(self.actor(id).pos)),
            e.nucleus_hint == self.hint_for(id),
            e.bar == self.meter_of(id),
    {
        let a = match self.actors.get(id) {
            Some(a) => a,
            None => {
                proof {
                    assert(false);
                }
                return OrganelleEntry {
                    name: String::new(),
                    description: String::new(),
                    fg: palette::SLIME,
                    pos: Coord::new(0, 0),
                    selected,
                    examined: false,
                    nucleus_hint: None,
                    bar: None,
                };
            },
        };
        let stats = a.kind.stats();
        let fg = if same_rgb(stats.fg, palette::DARK_SLIME) {
            palette::SLIME
        } else {
            stats.fg
        };
        OrganelleEntry {
            name: a.name.to_owned(),
            description: stats.description.to_owned(),
            fg,
            pos: a.pos,
            selected,
            examined: self.cursor == Some(a.pos),
            nucleus_hint: self.hint(nuclei, active_at, id),
            bar: self.entry_bar(id),
        }
    }

    /// `rows` is the sidebar: one row for each entry of the organelle
    /// browser, in order, each telling what it is, where, whether either
    /// cursor is on it, its place in the nucleus cycle, and its progress.
    pub closed spec fn rows_ok(&self, rows: Seq<OrganelleEntry>) -> bool {
        &&& rows.len() == self.loggable_spec().len()
        &&& forall|k: int|
            0 <= k < rows.len() ==> {
                let id = #[trigger] self.loggable_spec()[k];
                let e = rows[k];
                &&& e.name@ == self.actor(id).name@
                &&& e.description@ == actors::kind_description(self.actor(id).kind)
                &&& e.fg == Self::row_color(self.actor(id).kind)
                &&& e.pos == self.actor(id).pos
                &&& e.selected == (self.mode == UiMode::Organelles && k == self.organelles.selected_spec(
                    self.loggable_spec().len(),
                ))
                &&& e.examined == (self.cursor == Some(self.actor(id).pos))
                &&& e.nucleus_hint == self.hint_for(id)
                &&& e.bar == self.meter_of(id)
            }
    }

    /// The sidebar: one row for each entry of the organelle browser, in
    /// order, each telling what it is, where, whether either cursor is on
    /// it, its place in the nucleus cycle, and its progress.
    fn organelle_entries(&self) -> (r: Vec<OrganelleEntry>)
        requires
            self.inv(),
        ensures
            self.rows_ok(r@),
    {
        let listed = self.loggable();
        let selected = self.organelles.selected(listed.len());
        let nuclei = self.nuclei();
        let active_at: Option<usize> = match self.active {
            Some(a) => position(&nuclei, a),
            None => None,
        };
        let ghost pred = |x: ActorId| self.listed(x);
        let mut out: Vec<OrganelleEntry> = Vec::new();
        let mut row: usize = 0;
        while row < listed.len()
            invariant
                self.inv(),
                row <= listed@.len(),
                listed@ == self.loggable_spec(),
                listed@ == self.player_mass@.filter(pred),
                nuclei@ == self.nuclei_spec(),
                selected as nat == self.organelles.selected_spec(listed@.len()),
                self.active is None ==> active_at is None,
                self.active matches Some(a) ==> (active_at matches Some(i) ==> first_index(nuclei@, a) == Some(
                    i as int,
                )) && (active_at is None ==> first_index(nuclei@, a) is None),
                out@.len() == row,
                forall|k: int|
                    0 <= k < row ==> {
                        let id = #[trigger] listed@[k];
                        let e = out@[k];
                        &&& e.name@ == self.actor(id).name@
                        &&& e.description@ == actors::kind_description(self.actor(id).kind)
                        &&& e.fg == Self::row_color(self.actor(id).kind)
                        &&& e.pos == self.actor(id).pos
                        &&& e.selected == (self.mode == UiMode::Organelles && k == selected)
                        &&& e.examined == (self.cursor == Some(self.actor(id).pos))
                        &&& e.nucleus_hint == self.hint_for(id)
                        &&& e.bar == self.meter_of(id)
                    },
            decreases listed@.len() - row,
        {
            let id = listed[row];
            proof {
                self.player_mass@.lemma_filter_pred(pred, row as int);
            }
            let entry = self.entry_for(id, self.mode == UiMode::Organelles && row == selected, &nuclei, active_at);
            out.push(entry);
            row = row + 1;
        }
        out
    }

    /// The numbers along the top of the sidebar.
    pub closed spec fn status_ok(&self, st: Status) -> bool {
        &&& st.time == self.organelles.high_water()
        &&& st.mass == self.player_mass@.len()
        &&& st.cities_remaining == self.cities@.len()
        &&& st.cities_required == self.rules.num_cities - self.rules.grace_cities
        &&& st.city_armor == armor_for(self.rules, self.cities_destroyed as int)
        &&& match self.active {
            Some(a) => st.active_nucleus matches Some(n) && n.0@ == self.actor(a).name@ && n.1 == self.actor(a).pos,
            None => st.active_nucleus is None,
        }
    }

    /// The executable form of [`Sim::status_ok`].
    fn status(&self) -> (st: Status)
        requires
            self.inv(),
        ensures
            self.status_ok(st),
    {
        proof {
            lemma_armor_fits(self.rules, self.cities_destroyed as int);
            assert(0 <= self.rules.grace_cities <= self.rules.num_cities <= 16);
        }
        let active_nucleus = match self.active {
            Some(id) => match self.actors.get(id) {
                Some(a) => Some((a.name.to_owned(), a.pos)),
                None => None,
            },
            None => None,
        };
        Status {
            time: self.organelles.nice_turn(),
            mass: self.player_mass.len(),
            cities_remaining: self.cities.len(),
            cities_required: self.rules.cities_required(),
            city_armor: self.city_armor(),
            active_nucleus,
        }
    }

    /// What a live actor's own state says about it.
    pub closed spec fn state_lines(&self, id: ActorId) -> Seq<Seq<char>> {
        let a = self.actor(id);
        match a.extra {
            actors::Extra::City(gate) => seq![
                seq!["It takes "@, signed_decimal(a.armor as int), " mass to break this gate."@].flatten(),
                seq![
                    decimal(gate.queue@.len()),
                    " waiting to come out; wave "@,
                    signed_decimal(gate.level as int),
                    " in "@,
                    signed_decimal(gate.turns_to_next_wave as int),
                    " turns."@,
                ].flatten(),
            ],
            actors::Extra::Dissolving { overfill } => seq![
                seq!["It has "@, signed_decimal(a.hp as int), " of "@, signed_decimal(a.max_hp as int), " left to dissolve."@].flatten(),
            ] + if overfill > 0 {
                seq![seq!["It is overfull by "@, signed_decimal(overfill as int), "."@].flatten()]
            } else {
                Seq::<Seq<char>>::empty()
            },
            actors::Extra::Chloroplast { next_food, .. } => seq![
                seq!["It produces again in "@, signed_decimal(next_food as int), " turns."@].flatten(),
            ],
            _ => Seq::<Seq<char>>::empty(),
        }
    }

    /// How long an armoured human has before it acts, in whole turns.
    pub closed spec fn wait_lines(&self, id: ActorId) -> Seq<Seq<char>> {
        let entries = self.schedule.spec_entries();
        let now = self.schedule.spec_time();
        match schedule::first_of(entries, id) {
            Some(i) => if actors::is_tank_family(self.actor(id).kind) {
                let at = entries[i].0;
                let gap: nat = if at > now {
                    (at - now) as nat
                } else {
                    0
                };
                seq![seq!["It acts in "@, decimal(gap / (schedule::TURN as nat)), " turns."@].flatten()]
            } else {
                Seq::<Seq<char>>::empty()
            },
            None => Seq::<Seq<char>>::empty(),
        }
    }

    /// The line offering an upgrade path.
    pub open spec fn offer_line(p: actors::UpgradePath) -> Seq<char> {
        seq!["It can be upgraded with "@, signed_decimal(p.amount as int), " "@, actors::resource_name(p.resource), "."@].flatten()
    }

    /// The "it can be upgraded with" lines, or the "it needs N more" line
    /// once a path is locked in.
    pub closed spec fn upgrade_lines(&self, id: ActorId) -> Seq<Seq<char>> {
        let a = self.actor(id);
        let paths = actors::kind_upgrade_paths(a.kind);
        match actors::extra_upgrade(a.extra) {
            None => Seq::<Seq<char>>::empty(),
            Some(state) => if state.path is Some && state.path->0 < paths.len() {
                let p = paths[state.path->0 as int];
                let left = p.amount - state.progress;
                seq![
                    seq![
                        "It needs "@,
                        signed_decimal(if left < 0 {
                            0
                        } else {
                            left
                        }),
                        " more "@,
                        actors::resource_name(p.resource),
                        "."@,
                    ].flatten(),
                ]
            } else {
                paths.map_values(|p: actors::UpgradePath| Self::offer_line(p))
            },
        }
    }

    /// What a live actor is standing on.
    pub closed spec fn floor_lines(&self, id: ActorId) -> Seq<Seq<char>> {
        match self.lying(self.actor(id).pos) {
            Some(i) => if self.has_item(i) {
                seq![seq!["It is standing on a "@, actors::item_name(self.item(i).kind), "."@].flatten()]
            } else {
                Seq::<Seq<char>>::empty()
            },
            None => Seq::<Seq<char>>::empty(),
        }
    }

    /// `d` describes the live actor `id`: its name, its kind's flavour
    /// text, every detail line in order, and slime green for your own body
    /// or orange for a human.
    pub closed spec fn describes_actor(&self, d: Described, id: ActorId) -> bool {
        let a = self.actor(id);
        &&& d.name@ == a.name@
        &&& d.description@ == actors::kind_description(a.kind)
        &&& d.detail@.map_values(|s: String| s@) == self.state_lines(id) + self.wait_lines(id) + self.upgrade_lines(id)
            + self.floor_lines(id)
        &&& d.color == if is_organelle(a.kind) {
            palette::SLIME
        } else {
            palette::MILITIA
        }
    }

    /// `d` describes the item `id` and what eating it would grow.
    pub closed spec fn describes_item(&self, d: Described, id: ItemId) -> bool {
        let k = self.item(id).kind;
        &&& d.name@ == actors::item_name(k)
        &&& d.description@ == actors::item_description(k)
        &&& d.detail@.map_values(|s: String| s@) == seq![
            seq!["Eating it would grow a "@, actors::kind_name(actors::item_new_organelle(k)), "."@].flatten(),
        ]
        &&& d.color == palette::ROOT_ORGANELLE
    }

    /// The upgrade lines for a live actor.
    fn upgrade_detail(&self, id: ActorId) -> (r: Vec<String>)
        requires
            self.inv(),
            self.live(id),
        ensures
            r@.map_values(|s: String| s@) == self.upgrade_lines(id),
    {
        let a = match self.actors.get(id) {
            Some(a) => a,
            None => {
                proof {
                    assert(false);
                }
                return Vec::new();
            },
        };
        let paths = a.kind.upgrade_paths();
        let state = match a.extra.upgrade() {
            Some(s) => s,
            None => {
                let none: Vec<String> = Vec::new();
                proof {
                    assert(none@.map_values(|s: String| s@) =~= Seq::<Seq<char>>::empty());
                }
                return none;
            },
        };
        let mut out: Vec<String> = Vec::new();
        match state.path {
            Some(i) => {
                if i < paths.len() {
                    let p = paths[i];
                    let d: i64 = p.amount as i64 - state.progress as i64;
                    let left: i64 = if d < 0 {
                        0
                    } else {
                        d
                    };
                    let count = signed_text(left);
                    let parts: [&str; 5] = ["It needs ", count.as_str(), " more ", p.resource.name(), "."];
                    let line = join_text(&parts);
                    proof {
                        assert(parts@.map_values(|q: &str| q@) =~= seq![
                            "It needs "@,
                            count@,
                            " more "@,
                            actors::resource_name(p.resource),
                            "."@,
                        ]);
                    }
                    out.push(line);
                    proof {
                        assert(out@.map_values(|s: String| s@) =~= self.upgrade_lines(id));
                    }
                    return out;
                }
            },
            None => {},
        }
        let mut k: usize = 0;
        while k < paths.len()
            invariant
                k <= paths@.len(),
                paths@ == actors::kind_upgrade_paths(self.actor(id).kind),
                out@.map_values(|s: String| s@) == paths@.take(k as int).map_values(
                    |p: actors::UpgradePath| Self::offer_line(p),
                ),
            decreases paths@.len() - k,
        {
            let p = paths[k];
            let amount = signed_text(p.amount as i64);
            let parts: [&str; 5] = ["It can be upgraded with ", amount.as_str(), " ", p.resource.name(), "."];
            let line = join_text(&parts);
            proof {
                assert(parts@.map_values(|q: &str| q@) =~= seq![
                    "It can be upgraded with "@,
                    amount@,
                    " "@,
                    actors::resource_name(p.resource),
                    "."@,
                ]);
            }
            let ghost before = out@;
            out.push(line);
            proof {
                assert(out@.map_values(|s: String| s@) =~= before.map_values(|s: String| s@).push(line@));
                assert(paths@.take(k + 1) =~= paths@.take(k as int).push(p));
                assert(paths@.take(k + 1).map_values(|p: actors::UpgradePath| Self::offer_line(p)) =~= paths@.take(
                    k as int,
                ).map_values(|p: actors::UpgradePath| Self::offer_line(p)).push(Self::offer_line(p)));
            }
            k = k + 1;
        }
        proof {
            assert(paths@.take(k as int) =~= paths@);
        }
        out
    }

    /// Report on a live actor: see [`Sim::describes_actor`].
    fn describe_actor(&self, id: ActorId) -> (d: Described)
        requires
            self.inv(),
            self.live(id),
        ensures
            self.describes_actor(d, id),
    {
        let a = match self.actors.get(id) {
            Some(a) => a,
            None => {
                proof {
                    assert(false);
                }
                return Described {
                    name: String::new(),
                    description: String::new(),
                    detail: Vec::new(),
                    color: palette::MILITIA,
                };
            },
        };
        let stats = a.kind.stats();
        let mut detail: Vec<String> = Vec::new();
        match &a.extra {
            actors::Extra::City(gate) => {
                let armor = signed_text(a.armor as i64);
                let parts1: [&str; 3] = ["It takes ", armor.as_str(), " mass to break this gate."];
                add_line(&mut detail, &parts1);
                proof {
                    assert(parts1@.map_values(|q: &str| q@) =~= seq!["It takes "@, armor@, " mass to break this gate."@]);
                }
                let queued = decimal_text(gate.queue.len() as u64);
                let level = signed_text(gate.level as i64);
                let turns = signed_text(gate.turns_to_next_wave as i64);
                let parts2: [&str; 6] = [queued.as_str(), " waiting to come out; wave ", level.as_str(), " in ", turns.as_str(), " turns."];
                add_line(&mut detail, &parts2);
                proof {
                    assert(parts2@.map_values(|q: &str| q@) =~= seq![queued@, " waiting to come out; wave "@, level@, " in "@, turns@, " turns."@]);
                }
            },
            actors::Extra::Dissolving { overfill } => {
                let hp = signed_text(a.hp as i64);
                let max = signed_text(a.max_hp as i64);
                let parts3: [&str; 5] = ["It has ", hp.as_str(), " of ", max.as_str(), " left to dissolve."];
                add_line(&mut detail, &parts3);
                proof {
                    assert(parts3@.map_values(|q: &str| q@) =~= seq!["It has "@, hp@, " of "@, max@, " left to dissolve."@]);
                }
                if *overfill > 0 {
                    let over = signed_text(*overfill as i64);
                    let parts4: [&str; 3] = ["It is overfull by ", over.as_str(), "."];
                    add_line(&mut detail, &parts4);
                    proof {
                        assert(parts4@.map_values(|q: &str| q@) =~= seq!["It is overfull by "@, over@, "."@]);
                    }
                }
            },
            actors::Extra::Chloroplast { next_food, .. } => {
                let next = signed_text(*next_food as i64);
                let parts5: [&str; 3] = ["It produces again in ", next.as_str(), " turns."];
                add_line(&mut detail, &parts5);
                proof {
                    assert(parts5@.map_values(|q: &str| q@) =~= seq!["It produces again in "@, next@, " turns."@]);
                }
            },
            _ => {},
        }
        let ghost state = detail@.map_values(|s: String| s@);
        proof {
            assert(state =~= self.state_lines(id));
        }
        if actors::is_tank_family(a.kind) {
            match self.schedule.scheduled_for(id) {
                Some(at) => {
                    let now = self.schedule.time();
                    let gap: u64 = if at > now {
                        at - now
                    } else {
                        0
                    };
                    let turns = decimal_text(gap / schedule::TURN);
                    let parts6: [&str; 3] = ["It acts in ", turns.as_str(), " turns."];
                    add_line(&mut detail, &parts6);
                    proof {
                        assert(parts6@.map_values(|q: &str| q@) =~= seq!["It acts in "@, turns@, " turns."@]);
                    }
                },
                None => {},
            }
        }
        proof {
            assert(detail@.map_values(|s: String| s@) =~= self.state_lines(id) + self.wait_lines(id));
        }
        let ghost before = detail@;
        let mut up = self.upgrade_detail(id);
        let ghost ups = up@;
        detail.append(&mut up);
        proof {
            assert(detail@ =~= before + ups);
            assert(detail@.map_values(|s: String| s@) =~= before.map_values(|s: String| s@) + ups.map_values(
                |s: String| s@,
            ));
        }
        let ghost mid = detail@;
        match self.item_at(a.pos) {
            Some(i) => match self.items.get(i) {
                Some(item) => {
                    let parts7: [&str; 3] = ["It is standing on a ", item.kind.name(), "."];
                    add_line(&mut detail, &parts7);
                    proof {
                        assert(parts7@.map_values(|q: &str| q@) =~= seq!["It is standing on a "@, actors::item_name(item.kind), "."@]);
                    }
                },
                None => {},
            },
            None => {},
        }
        proof {
            assert(detail@.map_values(|s: String| s@) =~= mid.map_values(|s: String| s@) + self.floor_lines(id));
        }
        Described {
            name: a.name.to_owned(),
            description: stats.description.to_owned(),
            detail,
            color: if is_organelle(a.kind) {
                palette::SLIME
            } else {
                palette::MILITIA
            },
        }
    }

    /// Report on an item on the floor: see [`Sim::describes_item`].
    fn describe_item(&self, id: ItemId) -> (d: Described)
        requires
            self.inv(),
            self.has_item(id),
        ensures
            self.describes_item(d, id),
    {
        let kind = match self.items.get(id) {
            Some(item) => item.kind,
            None => {
                proof {
                    assert(false);
                }
                return Described {
                    name: String::new(),
                    description: String::new(),
                    detail: Vec::new(),
                    color: palette::ROOT_ORGANELLE,
                };
            },
        };
        let mut detail: Vec<String> = Vec::new();
        let parts8: [&str; 3] = ["Eating it would grow a ", kind.new_organelle().name(), "."];
        add_line(&mut detail, &parts8);
        proof {
            assert(parts8@.map_values(|q: &str| q@) =~= seq!["Eating it would grow a "@, actors::kind_name(actors::item_new_organelle(kind)), "."@]);
            assert(detail@.map_values(|s: String| s@) =~= seq![
                seq!["Eating it would grow a "@, actors::kind_name(actors::item_new_organelle(kind)), "."@].flatten(),
            ]);
        }
        Described {
            name: kind.name().to_owned(),
            description: kind.description().to_owned(),
            detail,
            color: palette::ROOT_ORGANELLE,
        }
    }

    /// `r` is what the examine cursor makes out at `pos`: whoever stands
    /// there if they are in sight, or a gate from memory once it has been
    /// seen; otherwise an item lying there in sight; otherwise nothing.
    pub closed spec fn under_ok(&self, pos: Coord, r: Option<Described>) -> bool {
        let cell = self.grid.spec_cell(pos);
        match self.occupant(pos) {
            Some(id) => if cell.in_fov || (is_city(self.actor(id).kind) && cell.explored) {
                r matches Some(d) && self.describes_actor(d, id)
            } else {
                r is None
            },
            None => match self.lying(pos) {
                Some(i) => if cell.in_fov {
                    r matches Some(d) && self.describes_item(d, i)
                } else {
                    r is None
                },
                None => r is None,
            },
        }
    }

    /// What the examine cursor makes out at `pos`: whoever stands there if
    /// they are in sight, or a gate from memory once it has been seen;
    /// otherwise an item lying there in sight; otherwise nothing.
    fn describe_under(&self, pos: Coord) -> (r: Option<Described>)
        requires
            self.inv(),
        ensures
            self.under_ok(pos, r),
    {
        proof {
            self.lemma_occupant_live(pos);
            self.lemma_lying_present(pos);
        }
        let cell = self.grid.cell(pos);
        match self.actor_at(pos) {
            Some(id) => {
                let kind = match self.actors.get(id) {
                    Some(a) => a.kind,
                    None => {
                        return None;
                    },
                };
                let remembered_gate = is_city(kind) && cell.explored;
                if cell.in_fov || remembered_gate {
                    return Some(self.describe_actor(id));
                }
                return None;
            },
            None => {},
        }
        if cell.in_fov {
            match self.item_at(pos) {
                Some(i) => {
                    return Some(self.describe_item(i));
                },
                None => {},
            }
        }
        None
    }

    /// What is drawn at `c`: the cell itself, or the examine cursor over it
    /// on the lit half of the blink. The cursor shows even on cells never
    /// seen.
    pub closed spec fn shown(&self, c: Coord, blink_on: bool) -> CellView {
        if blink_on && self.cursor == Some(c) {
            CellView { glyph: 'X', fg: palette::CURSOR, bg: palette::DARK_CURSOR }
        } else {
            self.cell_look(c, blink_on)
        }
    }

    /// Where the cells that will move when you do are.
    pub closed spec fn highlight_spec(&self) -> Seq<Coord> {
        self.player_mass@.filter_map(
            |id: ActorId|
                if self.live(id) && self.actor(id).slime == 2 {
                    Some(self.actor(id).pos)
                } else {
                    None
                },
        )
    }

    /// Resolve the world into something drawable: every cell of the map,
    /// the newest lines of the log, the sidebar, the examine cursor, and
    /// the cells worth a second look. `anim_frame` drives every blink; pass
    /// a counter that ticks about four times a second.
    pub fn view(&self, anim_frame: u32) -> (r: RenderView)
        requires
            self.inv(),
        ensures
            r.width == self.map().spec_width(),
            r.height == self.map().spec_height(),
            r.cells@.len() == self.cells(),
            forall|k: int| 0 <= k < self.cells() ==> #[trigger] r.cells@[k] == self.shown(
                coord_of(self.width(), k),
                view::blink_lit(anim_frame),
            ),
            log::string_lines(r.messages@) == self.log_spec()@.subrange(
                if self.log_spec()@.len() > log::VISIBLE_LINES {
                    self.log_spec()@.len() - log::VISIBLE_LINES
                } else {
                    0
                },
                self.log_spec()@.len() as int,
            ),
            self.rows_ok(r.organelles@),
            self.status_ok(r.status),
            match self.cursor_spec() {
                Some(c) => r.examine matches Some(e) && e.pos == c && self.under_ok(c, e.target),
                None => r.examine is None,
            },
            r.highlight@ == self.highlight_spec(),
            r.reticles@ == self.reticles_spec().map_values(|t: Reticle| t.pos),
            r.telegraphs@ == self.telegraphs_spec(),
            r.phase == self.phase_spec(),
            r.mode == self.mode_spec(),
    {
        let blink_on = (anim_frame / view::BLINK_SPEED) % view::BLINK_FRAMES == 0;
        proof {
            self.grid.lemma_wf();
        }
        let w = self.grid.width();
        let h = self.grid.height();
        let cells_n = (w * h) as usize;
        let wu = w as usize;
        let mut cells: Vec<CellView> = Vec::new();
        let mut k: usize = 0;
        while k < cells_n
            invariant
                self.inv(),
                cells_n == self.cells(),
                wu == self.width(),
                w == self.width(),
                k <= cells_n,
                cells@.len() == k,
                forall|j: int| 0 <= j < k ==> #[trigger] cells@[j] == self.cell_look(coord_of(self.width(), j), blink_on),
            decreases cells_n - k,
        {
            proof {
                self.grid.lemma_wf();
                lemma_coord_of(self.width(), self.grid.spec_height(), k as int);
                reveal(coord_of);
            }
            let c = Coord::new((k % wu) as i32, (k / wu) as i32);
            proof {
                assert(c == coord_of(self.width(), k as int));
            }
            cells.push(self.cell_view(c, blink_on));
            k = k + 1;
        }
        match self.cursor {
            Some(cursor) => {
                if blink_on {
                    match self.cell_index(cursor) {
                        Some(i) => {
                            cells.set(i, CellView { glyph: 'X', fg: palette::CURSOR, bg: palette::DARK_CURSOR });
                        },
                        None => {},
                    }
                }
            },
            None => {},
        }
        proof {
            assert forall|j: int| 0 <= j < self.cells() implies #[trigger] cells@[j] == self.shown(
                coord_of(self.width(), j),
                blink_on,
            ) by {
                self.grid.lemma_wf();
                lemma_coord_of(self.width(), self.grid.spec_height(), j);
                if let Some(cur) = self.cursor {
                    if self.grid.spec_in_bounds(cur) {
                        lemma_flat_index(self.width(), self.grid.spec_height(), cur);
                    }
                }
            }
        }
        let tail = self.messages.tail(log::VISIBLE_LINES);
        let mut messages: Vec<String> = Vec::new();
        let mut m: usize = 0;
        while m < tail.len()
            invariant
                m <= tail@.len(),
                messages@ == tail@.take(m as int),
            decreases tail@.len() - m,
        {
            messages.push(tail[m].clone());
            proof {
                assert(tail@.take(m + 1) =~= tail@.take(m as int).push(tail@[m as int]));
            }
            m = m + 1;
        }
        proof {
            assert(tail@.take(m as int) =~= tail@);
        }
        let examine = match self.cursor {
            Some(pos) => Some(ExamineView { pos, target: self.describe_under(pos) }),
            None => None,
        };
        let mut highlight: Vec<Coord> = Vec::new();
        let mut q: usize = 0;
        while q < self.player_mass.len()
            invariant
                self.inv(),
                q <= self.player_mass@.len(),
                highlight@ == self.player_mass@.take(q as int).filter_map(
                    |id: ActorId|
                        if self.live(id) && self.actor(id).slime == 2 {
                            Some(self.actor(id).pos)
                        } else {
                            None
                        },
                ),
            decreases self.player_mass@.len() - q,
        {
            proof {
                let f = |id: ActorId|
                    if self.live(id) && self.actor(id).slime == 2 {
                        Some(self.actor(id).pos)
                    } else {
                        None
                    };
                self.player_mass@.lemma_filter_map_take_succ(f, q as int);
            }
            match self.actors.get(self.player_mass[q]) {
                Some(a) => {
                    if a.slime == 2 {
                        let ghost before = highlight@;
                        highlight.push(a.pos);
                        proof {
                            assert(highlight@ =~= before + seq![a.pos]);
                        }
                    }
                },
                None => {},
            }
            q = q + 1;
        }
        proof {
            assert(self.player_mass@.take(q as int) =~= self.player_mass@);
        }
        let mut reticles: Vec<Coord> = Vec::new();
        let mut t: usize = 0;
        while t < self.reticles.len()
            invariant
                t <= self.reticles@.len(),
                reticles@ == self.reticles@.take(t as int).map_values(|x: Reticle| x.pos),
            decreases self.reticles@.len() - t,
        {
            reticles.push(self.reticles[t].pos);
            proof {
                assert(self.reticles@.take(t + 1) =~= self.reticles@.take(t as int).push(self.reticles@[t as int]));
                assert(reticles@ =~= self.reticles@.take(t + 1).map_values(|x: Reticle| x.pos));
            }
            t = t + 1;
        }
        proof {
            assert(self.reticles@.take(t as int) =~= self.reticles@);
        }
        RenderView {
            width: w,
            height: h,
            cells,
            messages,
            organelles: self.organelle_entries(),
            status: self.status(),
            examine,
            highlight,
            reticles,
            telegraphs: self.telegraphs(),
            phase: self.phase,
            mode: self.mode,
        }
    }

    // -- the master action ----------------------------------------------------------

    /// What walking `mover` into the cell held by `target` does, judged on
    /// the world as it stands: your own body trades places; an armoured
    /// human gives way only to a reinforced maw or a laser core; a gate
    /// falls only to a mass at least as large as its armour; any other human
    /// is eaten; anything else turns the move away.
    pub closed spec fn takes(&self, mover: ActorId, target: ActorId) -> bool {
        let t = self.actor(target);
        if t.slime > 0 {
            true
        } else if is_npc(t.kind) && t.armor > 0 {
            self.actor(mover).kind == Kind::ReinforcedMaw || self.actor(mover).kind == Kind::LaserCore
        } else if is_city(t.kind) {
            self.mass_spec().len() >= t.armor
        } else {
            actors::is_eatable(t.kind)
        }
    }

    /// Move the active nucleus one cell. Returns whether anything happened.
    pub(crate) fn attack_move_player(&mut self, dir: Dir) -> (acted: bool)
        requires
            old(self).inv(),
        ensures
            final(self).inv(),
            old(self).kept_setup(&*final(self)),
            old(self).active_spec() is None ==> !acted && *final(self) == *old(self),
            !acted ==> same_bodies(old(self).arena()@, final(self).arena()@) && final(self).floor() == old(
                self,
            ).floor() && final(self).map() == old(self).map(),
            old(self).active_spec() matches Some(a) ==> ({
                let dest = Coord {
                    x: (old(self).actor(a).pos.x + grid::dir_offset(dir).x) as i32,
                    y: (old(self).actor(a).pos.y + grid::dir_offset(dir).y) as i32,
                };
                &&& old(self).occupant(dest) matches Some(t) ==> acted == old(self).takes(a, t)
                &&& old(self).occupant(dest) is None && old(self).lying(dest) is None ==> acted == (old(
                    self,
                ).map().spec_in_bounds(dest) && old(self).map().spec_cell(dest).walkable)
            }),
    {
        let active = match self.active {
            Some(a) => a,
            None => {
                return false;
            },
        };
        let pos = match self.actors.get(active) {
            Some(a) => a.pos,
            None => {
                return false;
            },
        };
        let step = dir.offset();
        proof {
            self.lemma_live_on_map(active);
            self.grid.lemma_wf();
            assert(-1 <= step.x <= 1 && -1 <= step.y <= 1);
        }
        let dest = Coord::new(pos.x + step.x, pos.y + step.y);
        self.attack_move(active, dest)
    }

    /// Everything an organelle can do by walking into a cell. Returns whether
    /// the action happened; a refused action leaves every body where it was,
    /// which is why walking into a wall does not waste a turn.
    pub fn attack_move(&mut self, mover: ActorId, dest: Coord) -> (acted: bool)
        requires
            old(self).inv(),
        ensures
            final(self).inv(),
            old(self).kept_setup(&*final(self)),
            final(self).fuel_le(old(self)),
            !old(self).live(mover) ==> !acted && *final(self) == *old(self),
            old(self).live(mover) ==> (old(self).occupant(dest) matches Some(t) ==> acted == old(self).takes(
                mover,
                t,
            )),
            old(self).live(mover) && old(self).occupant(dest) is None && old(self).lying(dest) is None ==> acted == (
            old(self).map().spec_in_bounds(dest) && old(self).map().spec_cell(dest).walkable),
            old(self).live(mover) && old(self).occupant(dest) is None ==> (old(self).lying(dest) matches Some(i) && (
            old(self).map().spec_cell(dest).walkable || old(self).item(i).kind == ItemKind::Nutrient || old(
                self,
            ).actor(mover).kind == Kind::Cytoplasm) ==> acted),
            !acted ==> same_bodies(old(self).arena()@, final(self).arena()@) && final(self).floor() == old(
                self,
            ).floor() && final(self).map() == old(self).map(),
            acted && old(self).live(mover) && old(self).actor(mover).kind == Kind::QuantumCore && ((old(self).occupant(
                dest,
            ) is None && old(self).lying(dest) is None) || (old(self).occupant(dest) matches Some(t) && old(self).actor(
                t,
            ).slime > 0 && !actors::is_crafting_material(old(self).actor(t).kind))) ==> final(self).live(mover)
                && final(self).actor(mover).delay == 8,
            acted && old(self).live(mover) && !is_npc(old(self).actor(mover).kind) && old(self).actor(mover).kind
                != Kind::GravityCore && old(self).occupant(dest) is None && old(self).lying(dest) is None ==> (final(
            self).live(mover) && final(self).actor(mover).pos == dest),
            old(self).live(mover) && !is_npc(old(self).actor(mover).kind) && old(self).actor(mover).kind != Kind::GravityCore
                && (old(self).occupant(dest) matches Some(t) && t != mover && old(self).actor(t).slime > 0
                && !actors::is_crafting_material(old(self).actor(t).kind) && !is_npc(old(self).actor(t).kind)) ==> (acted
                && final(self).live(mover) && final(self).actor(mover).pos == dest && final(self).live(
                old(self).occupant(dest)->0,
            ) && final(self).actor(old(self).occupant(dest)->0).pos == old(self).actor(mover).pos),
        decreases old(self).fuel_m(), old(self).fuel_f(), 4nat,
    {
        let mover_kind = match self.actors.get(mover) {
            Some(a) => a.kind,
            None => {
                return false;
            },
        };
        let ghost o = *self;
        if mover_kind == Kind::QuantumCore {
            self.set_delay(mover, 8);
        }
        let ghost q = *self;
        proof {
            o.lemma_occupant_live(dest);
            o.lemma_lying_present(dest);
            assert forall|c: Coord| #[trigger] q.occupant(c) == o.occupant(c) && q.lying(c) == o.lying(c) by {}
            assert forall|t: ActorId| o.live(t) implies #[trigger] q.takes(mover, t) == o.takes(mover, t) by {
                if mover_kind == Kind::QuantumCore {
                    if t@ == mover@ {
                        ActorId::lemma_view_injective(t, mover);
                    }
                }
            }
        }
        let acted = match self.actor_at(dest) {
            Some(target) => self.bump_into(mover, target),
            None => self.step_onto(mover, dest),
        };
        if !acted {
            return false;
        }
        self.settle(mover);
        true
    }

    /// Walking into somebody: see [`Sim::takes`] for what it does.
    fn bump_into(&mut self, mover: ActorId, target: ActorId) -> (acted: bool)
        requires
            old(self).inv(),
            old(self).live(mover),
            old(self).live(target),
        ensures
            final(self).inv(),
            old(self).kept_setup(&*final(self)),
            final(self).fuel_le(old(self)),
            acted == old(self).takes(mover, target),
            !acted ==> same_bodies(old(self).arena()@, final(self).arena()@) && final(self).floor() == old(
                self,
            ).floor() && final(self).map() == old(self).map(),
            old(self).actor(target).slime > 0 && !actors::is_crafting_material(old(self).actor(target).kind) ==> (
            final(self).live(mover) && final(self).actor(mover).kind == old(self).actor(mover).kind),
            old(self).actor(target).slime > 0 && !actors::is_crafting_material(old(self).actor(target).kind) && mover
                != target ==> (final(self).actor(mover).pos == old(self).actor(target).pos && final(self).live(target)
                && final(self).actor(target).pos == old(self).actor(mover).pos && final(self).actor(target).kind == old(self).actor(target).kind),
        decreases old(self).fuel_m(), old(self).fuel_f(), 3nat,
    {
        let (mover_kind, mover_name) = match self.actors.get(mover) {
            Some(a) => (a.kind, a.name),
            None => {
                return false;
            },
        };
        let (target_kind, target_name, target_slime, target_armor) = match self.actors.get(target) {
            Some(t) => (t.kind, t.name, t.slime, t.armor),
            None => {
                return false;
            },
        };
        let ghost o = *self;
        if target_slime > 0 {
            self.swap_actors(mover, target);
            let ghost s1 = *self;
            proof {
                o.lemma_fuel_same(&s1);
            }
            if actors::is_crafting_material(target_kind) {
                self.try_upgrade(target, mover);
            }
            let half = match self.actors.get(mover) {
                Some(a) => {
                    if a.kind == Kind::QuantumCore {
                        Some(a.delay / 2)
                    } else {
                        None
                    }
                },
                None => None,
            };
            match half {
                Some(d) => {
                    self.set_delay(mover, d);
                    let ghost s2 = *self;
                    self.set_active_nucleus(mover);
                    proof {
                        assert(same_kinds(s2.actors@, self.actors@));
                        s2.lemma_fuel_same(&*self);
                    }
                },
                None => {},
            }
            self.cue(Cue::Swap);
            true
        } else if is_npc(target_kind) && target_armor > 0 {
            if mover_kind == Kind::ReinforcedMaw {
                let line = join_text(&["The ", target_name, " is crushed by the jaws of the ", mover_name, "!"]);
                self.say(line.as_str());
                self.eat_actor(mover, target);
                self.cue(Cue::Eat);
                true
            } else if mover_kind == Kind::LaserCore {
                let line = join_text(&["The ", target_name, " is obliterated by the ", mover_name, "'s laser beam!"]);
                self.say(line.as_str());
                self.eat_actor(mover, target);
                self.cue(Cue::Eat);
                true
            } else {
                let line = join_text(&["The ", target_name, "'s armor is too strong for the ", mover_name, "!"]);
                self.say(line.as_str());
                self.cue(Cue::Bump);
                false
            }
        } else if is_city(target_kind) {
            let mass = self.player_mass.len();
            if target_armor <= 0 || (mass as u64) >= (target_armor as u64) {
                self.destroy_city(target);
                true
            } else {
                let have = decimal_text(mass as u64);
                let need = signed_text(target_armor as i64);
                let line = join_text(
                    &[
                        "There is not enough mass to destroy the ",
                        target_name,
                        "! (Have ",
                        have.as_str(),
                        ", need ",
                        need.as_str(),
                        ")",
                    ],
                );
                self.say(line.as_str());
                self.cue(Cue::Bump);
                false
            }
        } else if actors::is_eatable(target_kind) {
            let line = join_text(&["The ", mover_name, " consumes the ", target_name, "."]);
            self.say(line.as_str());
            self.eat_actor(mover, target);
            self.cue(Cue::Eat);
            true
        } else {
            false
        }
    }

    /// Walking onto a cell nobody stands on: a catalyst lying there is
    /// absorbed if it can be, and otherwise the mass flows onto the cell.
    fn step_onto(&mut self, mover: ActorId, dest: Coord) -> (acted: bool)
        requires
            old(self).inv(),
            old(self).live(mover),
            old(self).occupant(dest) is None,
        ensures
            final(self).inv(),
            old(self).kept_setup(&*final(self)),
            final(self).fuel_le(old(self)),
            old(self).lying(dest) is None ==> acted == (old(self).map().spec_in_bounds(dest) && old(
                self,
            ).map().spec_cell(dest).walkable),
            old(self).lying(dest) matches Some(i) && (old(self).map().spec_cell(dest).walkable || old(self).item(
                i,
            ).kind == ItemKind::Nutrient || old(self).actor(mover).kind == Kind::Cytoplasm) ==> acted,
            !acted ==> same_bodies(old(self).arena()@, final(self).arena()@) && final(self).floor() == old(
                self,
            ).floor() && final(self).map() == old(self).map(),
            old(self).lying(dest) is None && acted ==> final(self).live(mover) && final(self).actor(mover).kind == old(
                self,
            ).actor(mover).kind && final(self).actor(mover).pos == dest,
        decreases old(self).fuel_m(), old(self).fuel_f(), 3nat,
    {
        proof {
            self.lemma_lying_present(dest);
        }
        match self.item_at(dest) {
            Some(item) => {
                if self.ingest(mover, item) {
                    true
                } else {
                    let walked = self.move_organelle(mover, dest);
                    if walked {
                        self.cue(Cue::Step);
                    }
                    walked
                }
            },
            None => {
                let walked = self.move_organelle(mover, dest);
                if walked {
                    self.cue(Cue::Step);
                } else {
                    self.cue(Cue::Bump);
                }
                walked
            },
        }
    }

    /// What follows a move that happened: every human beside the mover's
    /// new cell gets its engulf check, and then the quantum core banks its
    /// full speed again, the gravity core hauls its neighbours up, and the
    /// terror core takes the turn off whoever it has come to stand beside.
    fn settle(&mut self, mover: ActorId)
        requires
            old(self).inv(),
        ensures
            final(self).inv(),
            old(self).kept_setup(&*final(self)),
            final(self).fuel_le(old(self)),
            old(self).live(mover) && old(self).actor(mover).kind == Kind::QuantumCore ==> final(self).live(mover)
                && final(self).actor(mover).delay == 8,
            forall|x: ActorId|
                old(self).live(mover) && !is_npc(old(self).actor(mover).kind) && old(self).actor(mover).kind != Kind::GravityCore
                    && #[trigger] old(self).live(x) && !is_npc(old(self).actor(x).kind) ==> (final(self).live(x)
                    && final(self).actor(x).pos == old(self).actor(x).pos),
        decreases old(self).fuel_m(), old(self).fuel_f(), 3nat,
    {
        let ghost o = *self;
        match self.actors.get(mover) {
            Some(a) => {
                let around = self.grid.adjacent(a.pos);
                let mut k: usize = 0;
                while k < around.len()
                    invariant
                        old(self).kept_setup(&*self),
                        self.inv(),
                        self.fuel_m() == o.fuel_m(),
                        self.fuel_f() == o.fuel_f(),
                        o.live(mover),
                        organelles_kept(o.actors@, self.actors@),
                    decreases around@.len() - k,
                {
                    let cell = around[k];
                    k = k + 1;
                    let other = match self.actor_at(cell) {
                        Some(x) => x,
                        None => {
                            continue;
                        },
                    };
                    let human = match self.actors.get(other) {
                        Some(x) => is_npc(x.kind),
                        None => false,
                    };
                    if human {
                        let ghost b = self.actors@;
                        self.engulf(other);
                        proof {
                            assert forall|j: int|
                                0 <= j < o.actors@.len() && (#[trigger] o.actors@[j]) is Some && !actors::is_npc(
                                    o.actors@[j]->0.kind,
                                ) implies self.actors@[j] is Some && self.actors@[j]->0.kind == o.actors@[j]->0.kind by {
                                assert(b[j] is Some && b[j]->0.kind == o.actors@[j]->0.kind);
                            }
                        }
                    }
                }
            },
            None => {},
        }
        let ghost e = *self;
        proof {
            if o.live(mover) {
                assert(organelles_kept(o.actors@, e.actors@));
            }
        }
        let kind_now = match self.actors.get(mover) {
            Some(a) => Some(a.kind),
            None => None,
        };
        match kind_now {
            Some(Kind::QuantumCore) => {
                self.set_delay(mover, 8);
            },
            Some(Kind::GravityCore) => {
                self.gravity_pull(mover);
            },
            Some(Kind::TerrorCore) => {
                let ghost b = *self;
                self.terrify(mover);
                proof {
                    assert(same_kinds(b.actors@, self.actors@));
                    b.lemma_fuel_same(&*self);
                }
            },
            _ => {},
        }
        proof {
            if o.live(mover) && !is_npc(o.actor(mover).kind) && o.actor(mover).kind != Kind::GravityCore {
                assert(o.actors@[mover@ as int] is Some);
                assert(e.actors@[mover@ as int] is Some && e.actors@[mover@ as int]->0.kind == o.actors@[mover@ as int]->0.kind);
                assert(same_bodies(e.actors@, self.actors@));
                assert forall|x: ActorId| #[trigger] o.live(x) && !is_npc(o.actor(x).kind) implies self.live(x)
                    && self.actor(x).pos == o.actor(x).pos by {
                    assert(o.actors@[x@ as int] is Some);
                    assert(e.actors@[x@ as int] is Some);
                }
            }
        }
    }

    /// Consume an actor by contact. A human trades places with the eater
    /// and dissolves where the eater stood; anything else is simply removed.
    /// An item lying under the victim is absorbed too, unless it is a
    /// nutrient, so that one action cannot grow the mass twice.
    pub(crate) fn eat_actor(&mut self, eating: ActorId, eaten: ActorId)
        requires
            old(self).inv(),
        ensures
            final(self).inv(),
            old(self).kept_setup(&*final(self)),
            final(self).fuel_le(old(self)),
            !old(self).live(eaten) ==> *final(self) == *old(self),
        decreases old(self).fuel_m(), old(self).fuel_f(), 2nat,
    {
        let (kind, pos) = match self.actors.get(eaten) {
            Some(v) => (v.kind, v.pos),
            None => {
                return ;
            },
        };
        let under = self.item_at(pos);
        let ghost o = *self;
        if actors::is_eatable(kind) {
            self.swap_actors(eating, eaten);
            let ghost s = *self;
            proof {
                o.lemma_fuel_same(&s);
            }
            self.on_eaten_actor(eaten);
        } else {
            self.remove_actor(eaten);
        }
        let edible = match under {
            Some(item) => match self.items.get(item) {
                Some(i) => i.kind != ItemKind::Nutrient,
                None => false,
            },
            None => false,
        };
        if edible {
            match under {
                Some(item) => {
                    self.ingest(eating, item);
                },
                None => {},
            }
        }
    }

    /// Absorb a catalyst. A nutrient converts where it lies and the mass
    /// grows by one. Every other catalyst grows inside a cytoplasm, the eater
    /// itself if it is one and otherwise one on the nearest ring of the mass
    /// that has any; the mass stays the same size because that cytoplasm is
    /// spent. Returns `false` when there is no cytoplasm to be had, and the
    /// caller should just walk onto the tile. A catalyst on a cell held by
    /// anybody but the eater is left where it is.
    pub(crate) fn ingest(&mut self, eating: ActorId, item: ItemId) -> (ate: bool)
        requires
            old(self).inv(),
        ensures
            final(self).inv(),
            old(self).kept_setup(&*final(self)),
            final(self).fuel_le(old(self)),
            ate ==> final(self).fuel_m() < old(self).fuel_m(),
            !ate ==> final(self).arena() == old(self).arena() && final(self).floor() == old(self).floor()
                && final(self).map() == old(self).map(),
            !old(self).has_item(item) || !old(self).live(eating) ==> !ate && *final(self) == *old(self),
            old(self).has_item(item) && old(self).live(eating) && old(self).occupant(old(self).item(item).pos) is None
                && (old(self).item(item).kind == ItemKind::Nutrient || old(self).actor(eating).kind
                == Kind::Cytoplasm) ==> ate,
        decreases old(self).fuel_m(), old(self).fuel_f(), 1nat,
    {
        let (kind, pos) = match self.items.get(item) {
            Some(i) => (i.kind, i.pos),
            None => {
                return false;
            },
        };
        let eater_kind = match self.actors.get(eating) {
            Some(a) => a.kind,
            None => {
                return false;
            },
        };
        let blocked = match self.actor_at(pos) {
            Some(other) => kind == ItemKind::Nutrient || other != eating,
            None => false,
        };
        if blocked {
            return false;
        }
        let product = kind.new_organelle();
        let ghost o = *self;
        proof {
            o.lemma_item_on_map(item);
        }
        if kind == ItemKind::Nutrient {
            self.remove_item(item);
            proof {
                actors::lemma_count_live_clear(o.items@, item@ as int);
            }
            self.add_actor(product, pos);
            self.cue(Cue::Ingest);
            self.attack_move(eating, pos);
            return true;
        }
        let host = if eater_kind == Kind::Cytoplasm {
            Some(eating)
        } else {
            let ring = self.nearest_cytoplasm(eating);
            self.pick(ring.as_slice())
        };
        let host = match host {
            Some(h) => h,
            None => {
                let line = join_text(&["There is no room to eat the ", kind.name(), "."]);
                self.say(line.as_str());
                return false;
            },
        };
        let transforms_self = host == eating;
        let where_to = if transforms_self {
            pos
        } else {
            match self.actors.get(host) {
                Some(a) => a.pos,
                None => {
                    return false;
                },
            }
        };
        let ghost p = *self;
        self.remove_item(item);
        proof {
            actors::lemma_count_live_clear(p.items@, item@ as int);
        }
        let ghost p2 = *self;
        let gone = self.remove_actor(host);
        proof {
            p.lemma_occupant_live(pos);
            assert(p2.occupant(pos) == p.occupant(pos));
            assert(gone is Some);
        }
        self.add_actor(product, where_to);
        let line = join_text(&["The ", kind.name(), " is absorbed and becomes a ", product.name(), "."]);
        self.say(line.as_str());
        self.cue(Cue::Ingest);
        if !transforms_self {
            self.attack_move(eating, pos);
        }
        true
    }

    /// A gravity core's wake: twice over, it picks a free cell beside it and
    /// yanks one organelle within reach one step toward that cell. The core
    /// anchors itself first, which takes it out of the drag so the organelles
    /// it hauls cannot haul it back, and a core already anchored mid-pull
    /// refuses to start another.
    pub fn gravity_pull(&mut self, id: ActorId)
        requires
            old(self).inv(),
            old(self).live(id) ==> old(self).actor(id).kind == Kind::GravityCore,
        ensures
            final(self).inv(),
            old(self).kept_setup(&*final(self)),
            final(self).fuel_le(old(self)),
            !old(self).live(id) || old(self).actor(id).anchor ==> *final(self) == *old(self),
            old(self).live(id) && !old(self).actor(id).anchor && final(self).live(id) ==> !final(self).actor(
                id,
            ).anchor,
        decreases old(self).fuel_m(), old(self).fuel_f(), 0nat,
    {
        let anchored = match self.actors.get(id) {
            Some(a) => a.anchor,
            None => {
                return ;
            },
        };
        if anchored {
            return ;
        }
        let ghost o = *self;
        self.set_anchor(id, true);
        proof {
            let b = actors::Actor { anchor: true, ..o.actor(id) };
            lemma_count_actors_set(o.actors@, id@ as int, b, |a: actors::Actor| actors::is_crafting_material(a.kind));
            lemma_count_actors_set(o.actors@, id@ as int, b, |a: actors::Actor| a.kind == Kind::GravityCore && !a.anchor);
        }
        let ghost a = *self;
        let mut attempt: u32 = 0;
        while attempt < GRAVITY_ATTEMPTS
            invariant
                old(self).kept_setup(&*self),
                self.inv(),
                self.fuel_le(&a),
                a.fuel_m() == o.fuel_m(),
                a.fuel_f() + 1 == o.fuel_f(),
                o.fuel_m() == old(self).fuel_m(),
                o.fuel_f() == old(self).fuel_f(),
            decreases GRAVITY_ATTEMPTS - attempt,
        {
            attempt = attempt + 1;
            let pos = match self.actors.get(id) {
                Some(x) => x.pos,
                None => {
                    break;
                },
            };
            let free = self.grid.adjacent_walkable(pos);
            let toward = match self.pick(free.as_slice()) {
                Some(t) => t,
                None => {
                    continue;
                },
            };
            let mut nearest = self.pullable(id, pos, toward);
            while nearest.len() > 0
                invariant
                    old(self).kept_setup(&*self),
                    self.inv(),
                    self.fuel_le(&a),
                    a.fuel_m() == o.fuel_m(),
                    a.fuel_f() + 1 == o.fuel_f(),
                    o.fuel_m() == old(self).fuel_m(),
                    o.fuel_f() == old(self).fuel_f(),
                    nearest@.len() <= i32::MAX,
                decreases nearest@.len(),
            {
                let k = match rand_index(&mut self.rng, nearest.len()) {
                    Some(k) => k,
                    None => {
                        break;
                    },
                };
                let hauled = nearest.remove(k);
                let from = match self.actors.get(hauled) {
                    Some(x) => x.pos,
                    None => {
                        continue;
                    },
                };
                match self.path_ignoring_militia(from, toward) {
                    Some(path) => {
                        if path.len() >= 2 {
                            proof {
                                assert(self.fuel_m() < old(self).fuel_m() || (self.fuel_m() == old(self).fuel_m()
                                    && self.fuel_f() < old(self).fuel_f()));
                            }
                            self.attack_move(hauled, path[1]);
                        }
                        break;
                    },
                    None => {},
                }
            }
        }
        if self.actors.contains(id) {
            let ghost c = *self;
            self.set_anchor(id, false);
            proof {
                let b = actors::Actor { anchor: false, ..c.actor(id) };
                lemma_count_actors_set(c.actors@, id@ as int, b, |x: actors::Actor| actors::is_crafting_material(x.kind));
                lemma_count_actors_set(c.actors@, id@ as int, b, |x: actors::Actor| x.kind == Kind::GravityCore && !x.anchor);
            }
        }
    }

    /// A terror core's wake: each adjacent human is lifted off the schedule
    /// and has its own delay inflated by however long it had left plus a
    /// whole turn, so it comes back roughly two turns late.
    pub fn terrify(&mut self, id: ActorId)
        requires
            old(self).inv(),
        ensures
            final(self).inv(),
            old(self).kept_setup(&*final(self)),
            same_bodies(old(self).arena()@, final(self).arena()@),
            final(self).floor() == old(self).floor(),
            final(self).phase_spec() == old(self).phase_spec(),
            ({
                let earlier = old(self).frightened().filter(|p: (ActorId, ActorId)| p.0 != id);
                &&& earlier.len() <= final(self).frightened().len()
                &&& final(self).frightened().subrange(0, earlier.len() as int) == earlier
                &&& forall|j: int|
                    earlier.len() <= j < final(self).frightened().len() ==> (#[trigger] final(self).frightened()[j]).0 == id
            }),
            !old(self).live(id) ==> final(self).frightened() == old(self).frightened().filter(
                |p: (ActorId, ActorId)| p.0 != id,
            ),
    {
        let ghost f = |t: Terrified| (t.core, t.victim);
        let ghost pred = |p: (ActorId, ActorId)| p.0 != id;
        let mut kept: Vec<Terrified> = Vec::new();
        let mut k: usize = 0;
        while k < self.terrified.len()
            invariant
                old(self).kept_setup(&*self),
                k <= self.terrified@.len(),
                f == (|t: Terrified| (t.core, t.victim)),
                pred == (|p: (ActorId, ActorId)| p.0 != id),
                kept@.map_values(f) == self.terrified@.take(k as int).map_values(f).filter(pred),
            decreases self.terrified@.len() - k,
        {
            let t = self.terrified[k];
            proof {
                assert(self.terrified@.take(k + 1).map_values(f) =~= self.terrified@.take(k as int).map_values(f).push(f(t)));
                self.terrified@.take(k as int).map_values(f).lemma_filter_push(f(t), pred);
            }
            let ghost kb = kept@;
            if t.core != id {
                kept.push(t);
                proof {
                    assert(kept@.map_values(f) =~= kb.map_values(f).push(f(t)));
                }
            }
            k = k + 1;
        }
        proof {
            assert(self.terrified@.take(k as int) =~= self.terrified@);
        }
        self.terrified = kept;
        let ghost earlier = self.frightened();
        proof {
            assert(self.frightened().subrange(0, earlier.len() as int) =~= earlier);
        }
        let pos = match self.actors.get(id) {
            Some(a) => a.pos,
            None => {
                return ;
            },
        };
        let around = self.grid.adjacent(pos);
        let mut victims: Vec<ActorId> = Vec::new();
        let mut k: usize = 0;
        while k < around.len()
            invariant
                old(self).kept_setup(&*self),
                self.inv(),
                k <= around@.len(),
            decreases around@.len() - k,
        {
            match self.actor_at(around[k]) {
                Some(a) => match self.actors.get(a) {
                    Some(x) => {
                        if actors::is_militia_family(x.kind) {
                            victims.push(a);
                        }
                    },
                    None => {},
                },
                None => {},
            }
            k = k + 1;
        }
        let now = self.schedule.time();
        let ghost o = *self;
        let mut k: usize = 0;
        while k < victims.len()
            invariant
                old(self).kept_setup(&*self),
                self.inv(),
                k <= victims@.len(),
                same_bodies(o.actors@, self.actors@),
                self.items == o.items,
                self.phase == o.phase,
                self.schedule.spec_time() == now,
                earlier.len() <= self.frightened().len(),
                self.frightened().subrange(0, earlier.len() as int) == earlier,
                forall|j: int| earlier.len() <= j < self.frightened().len() ==> (#[trigger] self.frightened()[j]).0 == id,
            decreases victims@.len() - k,
        {
            let victim = victims[k];
            let at = match self.schedule.scheduled_for(victim) {
                Some(at) => at,
                None => {
                    let name = match self.actors.get(victim) {
                        Some(a) => a.name,
                        None => "",
                    };
                    let line = join_text(&[name, " is already terrified."]);
                    self.say(line.as_str());
                    k = k + 1;
                    continue;
                },
            };
            let gap: u64 = if at > now {
                at - now
            } else {
                0
            };
            let until: i64 = if gap > 2147483647 {
                2147483647
            } else {
                gap as i64
            };
            self.schedule.remove(victim);
            let ghost b = self.actors@;
            match self.actors.get_mut(victim) {
                Some(a) => {
                    let delay = a.delay;
                    let slowed = Self::saturating(Self::saturating(delay, until), 16);
                    a.delay = slowed;
                    let ghost fb = self.frightened();
                    self.terrified.push(Terrified { core: id, victim, delay });
                    proof {
                        assert(self.frightened() =~= fb.push((id, victim)));
                        assert(self.frightened().subrange(0, earlier.len() as int) =~= fb.subrange(0, earlier.len() as int));
                    }
                },
                None => {},
            }
            proof {
                assert(same_bodies(b, self.actors@));
                lemma_occupancy_same_bodies(self.grid, b, self.actors@, self.actor_at@, self.items@, self.item_at@);
            }
            self.cue(Cue::Terrify);
            k = k + 1;
        }
    }
}

/// The kinds that do something with their turn; every other kind is inert
/// and simply goes back on the clock.
pub open spec fn takes_turns(kind: Kind) -> bool {
    ||| actors::is_dissolving(kind)
    ||| actors::is_crafting_material(kind)
    ||| matches!(kind, Kind::City | Kind::Militia | Kind::Tank | Kind::Mech | Kind::Hunter | Kind::Scout | Kind::Caravan | Kind::Maw | Kind::ReinforcedMaw | Kind::Tentacle | Kind::Chloroplast | Kind::Bioreactor | Kind::BiometalForge | Kind::PrimordialSoup | Kind::Cultivator | Kind::Extractor)
}

/// Whether a command taken during play can end the turn: waiting does, and
/// so does a step while the messages panel is open. Everything else works
/// the interface only.
pub open spec fn may_end_turn(command: Command, mode: UiMode) -> bool {
    command is Wait || (command is Move && mode == UiMode::Messages)
}

/// Whether a command starts a run from where the game stands: a difficulty
/// on the title screen, or a new seed once the run is over.
pub open spec fn starts_run(phase: Phase, command: Option<Command>) -> bool {
    ||| (phase is Title && (command matches Some(c) && c is Start))
    ||| (phase is GameOver && (command matches Some(c) && c is Restart))
}

impl Sim {
    /// What no step of a run changes: the difficulty, and so the rules;
    /// that the run has left the title screen; that a run once over stays
    /// over; and, while it is not over, that the clock only runs forward.
    pub open spec fn kept_setup(&self, later: &Sim) -> bool {
        &&& later.difficulty_spec() == self.difficulty_spec()
        &&& !(self.phase_spec() is Title) ==> !(later.phase_spec() is Title)
        &&& self.phase_spec() is GameOver ==> later.phase_spec() is GameOver
        &&& !(later.phase_spec() is GameOver) ==> self.queue().spec_time() <= later.queue().spec_time()
    }

    /// Nothing differs between the two but the organelle panel's clock.
    pub closed spec fn clock_only(&self, other: &Sim) -> bool {
        *other == (Sim { organelles: other.organelles, stalled: other.stalled, ..*self })
    }

    /// What a non-nucleus actor does with its turn: a dissolving corpse
    /// digests, crafting stock crafts, gates, humans, maws, tentacles,
    /// producers, cultivators and extractors each do their own thing.
    /// Anything else is inert: most of your body, plain membranes, force
    /// fields and butchers all work by standing still.
    fn act(&mut self, id: ActorId)
        requires
            old(self).inv(),
        ensures
            final(self).inv(),
            old(self).kept_setup(&*final(self)),
            !old(self).live(id) ==> *final(self) == *old(self),
            old(self).live(id) && !takes_turns(old(self).actor(id).kind) ==> *final(self) == *old(self),
            old(self).live(id) && is_npc(old(self).actor(id).kind) && (old(self).actor(id).intent matches Some(i) && (
            i.kind == actors::IntentKind::Step || i.kind == actors::IntentKind::Strike) && old(self).map().spec_in_bounds(i.at)
                && taxi_spec(i.at, old(self).actor(id).pos) == 1 && old(self).map().spec_cell(i.at).walkable) ==> (final(
            self).live(id) && final(self).actor(id).pos == old(self).actor(id).intent->0.at),
            old(self).live(id) && is_npc(old(self).actor(id).kind) && (exists|d: Coord|
                old(self).map().spec_in_bounds(d) && #[trigger] taxi_spec(d, old(self).actor(id).pos) == 1 && old(
                    self,
                ).map().spec_cell(d).walkable) ==> (final(self).live(id) ==> final(self).actor(id).intent is Some),
    {
        let (kind, hp, next) = match self.actors.get(id) {
            Some(a) => (
                a.kind,
                a.hp,
                match &a.extra {
                    actors::Extra::Chloroplast { next_food, .. } => *next_food,
                    _ => 0,
                },
            ),
            None => {
                return ;
            },
        };
        if actors::is_dissolving(kind) {
            if hp > i32::MIN {
                self.digest(id);
            }
            return ;
        }
        if actors::is_crafting_material(kind) {
            self.craft(id);
            return ;
        }
        match kind {
            Kind::City => self.city_act(id),
            Kind::Militia | Kind::Tank | Kind::Mech | Kind::Hunter | Kind::Scout | Kind::Caravan => self.human_act(id),
            Kind::Maw | Kind::ReinforcedMaw => self.maw_act(id),
            Kind::Tentacle => self.tentacle_act(id),
            Kind::Chloroplast | Kind::Bioreactor | Kind::BiometalForge | Kind::PrimordialSoup => {
                if next > i32::MIN {
                    self.produce_act(id);
                }
            },
            Kind::Cultivator => self.cultivate(id),
            Kind::Extractor => {
                self.extract(id);
                self.cultivate(id);
            },
            _ => {},
        }
    }

    /// One trip round the turn loop: stale rumors are forgotten, the first
    /// actor due comes off the clock, and either a nucleus takes control
    /// (the mass's sight is recomputed and the world waits on you) or the
    /// actor takes its turn and, if still alive, goes back on the clock at
    /// its own delay. A terror core coming off the clock hands back everybody
    /// it froze.
    fn advance_turn_step(&mut self)
        requires
            old(self).inv(),
        ensures
            final(self).inv(),
            old(self).kept_setup(&*final(self)),
            old(self).queue().spec_entries().len() == 0 ==> old(self).rumors_only(&*final(self)),
            ({
                let e = old(self).queue().spec_entries();
                (e.len() > 0 && e[0].0 + i32::MAX <= u64::MAX && old(self).live(e[0].1)
                    && actors::is_nucleus_family(old(self).actor(e[0].1).kind)) ==> (final(self).turn_spec()
                    && final(self).active_spec() == Some(e[0].1) && final(self).phase_spec()
                    == old(self).phase_spec())
            }),
    {
        let ghost o = *self;
        self.forget_stale_rumors();
        proof {
            o.lemma_rumors_unmoved(&*self);
        }
        match self.schedule.next_due() {
            Some(t) => {
                if t > u64::MAX - 2147483647u64 {
                    return ;
                }
            },
            None => {
                return ;
            },
        }
        let id = match self.schedule.pop() {
            Some(x) => x,
            None => {
                return ;
            },
        };
        let kind = match self.actors.get(id) {
            Some(a) => a.kind,
            None => {
                return ;
            },
        };
        if actors::is_nucleus_family(kind) {
            self.update_player_fov();
            self.player_turn = true;
            self.set_active_nucleus(id);
        } else {
            self.act(id);
            let delay = match self.actors.get(id) {
                Some(a) => Some(a.delay),
                None => None,
            };
            match delay {
                Some(d) => self.schedule.add(id, d),
                None => {},
            }
        }
        let terror = match self.actors.get(id) {
            Some(a) => a.kind == Kind::TerrorCore,
            None => false,
        };
        if terror {
            self.terror_post_schedule(id);
        }
    }

    /// Run the world until it needs you again: actors come off the clock one
    /// at a time until a nucleus is due, the run ends or nobody is left on
    /// the clock. A guard of a million steps stops a runaway loop; the
    /// number of steps taken is returned. The organelle panel's clock is
    /// brought up to the schedule's.
    fn pump(&mut self) -> (steps: u32)
        requires
            old(self).inv(),
        ensures
            final(self).inv(),
            old(self).kept_setup(&*final(self)),
            !(final(self).phase_spec() is Playing) || final(self).turn_spec() || final(self).queue().spec_entries().len()
                == 0 || steps > 1_000_000,
            !(old(self).phase_spec() is Playing) || old(self).turn_spec() || old(self).queue().spec_entries().len() == 0
                ==> steps == 0 && old(self).clock_only(&*final(self)),
            final(self).stalled_spec() == (steps > 1_000_000),
            final(self).browser_spec().high_water() >= final(self).queue().spec_time(),
    {
        let ghost o = *self;
        let mut guard: u32 = 0;
        while matches!(self.phase, Phase::Playing) && !self.player_turn && !self.schedule.is_empty()
            invariant_except_break
                old(self).kept_setup(&*self),
                guard <= 1_000_000,
            invariant
                old(self).kept_setup(&*self),
                self.inv(),
                guard == 0 ==> *self == o,
                !(o.phase is Playing) || o.player_turn || o.schedule.spec_entries().len() == 0 ==> guard == 0,
            ensures
                self.inv(),
                guard == 0 ==> *self == o,
                !(o.phase is Playing) || o.player_turn || o.schedule.spec_entries().len() == 0 ==> guard == 0,
                !(self.phase is Playing) || self.player_turn || self.schedule.spec_entries().len() == 0 || guard
                    > 1_000_000,
            decreases 1_000_001 - guard,
        {
            self.advance_turn_step();
            guard = guard + 1;
            if guard > 1_000_000 {
                break;
            }
        }
        let now = self.schedule.time();
        self.organelles.observe_time(now);
        proof {
            self.stalled@ = guard > 1_000_000;
        }
        guard
    }

    /// Feed one command, then run the world until it needs you again. On the
    /// title screen a difficulty starts a run; once a run is over a new seed
    /// starts another with the same difficulty, keeping how the player gives
    /// orders; during play the command is handled. Anything else is ignored.
    /// The news of the last advance is cleared first.
    ///
    /// A command that does not end the turn leaves the world exactly where
    /// it was; one that does comes back with the whole world's turn already
    /// run, so one call is one turn.
    pub fn advance(&mut self, command: Option<Command>)
        requires
            old(self).inv(),
        ensures
            final(self).inv(),
            !(old(self).phase_spec() is Playing) && !starts_run(old(self).phase_spec(), command) ==> (
            final(self).arena()@ == old(self).arena()@ && final(self).floor() == old(self).floor()
                && final(self).map() == old(self).map() && final(self).queue() == old(self).queue()
                && final(self).phase_spec() == old(self).phase_spec() && final(self).log_spec()
                == old(self).log_spec() && final(self).cues_spec().len() == 0
                && final(self).effects_spec().len() == 0),
            (old(self).phase_spec() is Playing && old(self).turn_spec() && match command {
                Some(c) => !may_end_turn(c, old(self).mode_spec()),
                None => true,
            }) ==> (same_places(old(self).arena()@, final(self).arena()@) && final(self).floor() == old(
                self,
            ).floor() && final(self).map() == old(self).map() && final(self).queue().spec_time() == old(
                self,
            ).queue().spec_time() && final(self).phase_spec() == old(self).phase_spec() && final(self).turn_spec()),
            !(final(self).phase_spec() is Playing) || final(self).turn_spec() || final(self).queue().spec_entries().len()
                == 0 || final(self).stalled_spec(),
            command matches Some(Command::Start(d)) ==> (old(self).phase_spec() is Title ==> (final(self).rules_spec()
                == rules_of(d) && !(final(self).phase_spec() is Title))),
            !starts_run(old(self).phase_spec(), command) ==> old(self).kept_setup(&*final(self)),
    {
        self.cues.clear();
        self.effects.clear();
        match (self.phase, command) {
            (Phase::Title, Some(Command::Start(difficulty))) => {
                self.start(difficulty);
            },
            (Phase::GameOver { .. }, Some(Command::Restart { seed })) => {
                let difficulty = self.difficulty;
                let style = self.input_style;
                *self = Sim::new(seed, difficulty);
                self.input_style = style;
                self.start(difficulty);
            },
            (Phase::Playing, Some(c)) => {
                let roomy = self.grid.width() >= 1 && self.grid.height() >= 1;
                let needs_room = self.cursor.is_some() && match c {
                    Command::MoveCursor(_) => true,
                    Command::Move(_) => matches!(self.mode, UiMode::Examine),
                    _ => false,
                };
                if roomy || !needs_room {
                    self.handle(c);
                }
            },
            _ => {},
        }
        self.pump();
    }
}

/// A city's price fits an `i32` for every count of fallen cities up to the
/// number generated.
proof fn lemma_armor_fits(r: Rules, destroyed: int)
    requires
        exists|d: Difficulty| r == rules_of(d),
        0 <= destroyed <= r.num_cities,
    ensures
        0 <= armor_for(r, destroyed) <= 17 * 32,
        destroyed < i32::MAX,
{
    assert(0 <= (destroyed + 1) * r.city_armor_step <= 17 * 32) by (nonlinear_arith)
        requires
            0 <= destroyed <= 16,
            0 <= r.city_armor_step <= 32,
    ;
}

} // verus!
