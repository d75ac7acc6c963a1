//! The turn queue.
//!
//! Time is an integer that only ever moves forward, and everything that acts
//! waits in line keyed by the instant it next acts. Popping takes the lowest
//! instant and, within it, the earliest insertion — so a tie is broken by who
//! was scheduled first, which is what keeps a stack of nuclei from drifting
//! out of order.
//!
//! The cost of a turn is an explicit argument to [`Schedule::add`], so the
//! caller says what it means.

use vstd::prelude::*;

use super::actors::ActorId;

verus! {

/// Time units in one game turn. The UI divides by this to show a turn count.
pub const TURN: u64 = 16;

/// One queued turn: when it comes due, and whose it is.
pub type Entry = (u64, ActorId);

/// The entries are in due order: nondecreasing instants.
pub open spec fn due_ordered(s: Seq<Entry>) -> bool {
    forall|i: int, j: int| 0 <= i <= j < s.len() ==> (#[trigger] s[i]).0 <= (#[trigger] s[j]).0
}

/// How many entries come due no later than `key`: where a new entry for
/// `key` goes, behind every one of them.
pub open spec fn due_by(s: Seq<Entry>, key: int) -> nat
    decreases s.len(),
{
    if s.len() == 0 {
        0
    } else {
        due_by(s.drop_last(), key) + (if s.last().0 <= key { 1nat } else { 0nat })
    }
}

/// The first position holding `id`, if any.
pub open spec fn first_of(s: Seq<Entry>, id: ActorId) -> Option<int>
    decreases s.len(),
{
    if s.len() == 0 {
        None
    } else if s[0].1 == id {
        Some(0)
    } else {
        match first_of(s.drop_first(), id) {
            Some(i) => Some(i + 1),
            None => None,
        }
    }
}

/// A time-ordered queue of everything waiting to act.
#[derive(Clone, Debug, Default)]
pub struct Schedule {
    time: u64,
    entries: Vec<Entry>,
}

/// In a due-ordered queue, the entries due by `key` are exactly a prefix.
pub proof fn lemma_due_by_prefix(s: Seq<Entry>, key: int)
    requires
        due_ordered(s),
    ensures
        due_by(s, key) <= s.len(),
        forall|i: int| 0 <= i < due_by(s, key) ==> (#[trigger] s[i]).0 <= key,
        forall|i: int| due_by(s, key) <= i < s.len() ==> (#[trigger] s[i]).0 > key,
    decreases s.len(),
{
    if s.len() > 0 {
        let t = s.drop_last();
        assert(due_ordered(t));
        lemma_due_by_prefix(t, key);
        if s.last().0 <= key {
            assert forall|i: int| due_by(s, key) <= i < s.len() implies (#[trigger] s[i]).0 > key by {}
            assert forall|i: int| 0 <= i < due_by(s, key) implies (#[trigger] s[i]).0 <= key by {
                if i < t.len() {
                    assert(s[i] == t[i]);
                }
            }
            assert(due_by(t, key) == t.len()) by {
                if due_by(t, key) < t.len() {
                    let k = due_by(t, key) as int;
                    assert(t[k].0 > key);
                    assert(s[k].0 <= s[s.len() - 1].0);
                }
            }
        } else {
            assert forall|i: int| due_by(s, key) <= i < s.len() implies (#[trigger] s[i]).0 > key by {
                if i < t.len() {
                    assert(s[i] == t[i]);
                }
            }
            assert forall|i: int| 0 <= i < due_by(s, key) implies (#[trigger] s[i]).0 <= key by {
                assert(s[i] == t[i]);
            }
        }
    }
}

/// `first_of` finds the earliest position holding the handle.
pub proof fn lemma_first_of(s: Seq<Entry>, id: ActorId)
    ensures
        first_of(s, id) matches Some(i) ==> 0 <= i < s.len() && s[i].1 == id && forall|j: int| 0 <= j < i ==> (#[trigger] s[j]).1 != id,
        first_of(s, id) is None ==> forall|j: int| 0 <= j < s.len() ==> (#[trigger] s[j]).1 != id,
    decreases s.len(),
{
    if s.len() > 0 && s[0].1 != id {
        let t = s.drop_first();
        lemma_first_of(t, id);
        assert forall|j: int| 1 <= j < s.len() implies #[trigger] s[j] == t[j - 1] by {}
    }
}

impl Schedule {
    /// The instant of the most recently popped entry.
    pub closed spec fn spec_time(&self) -> u64 {
        self.time
    }

    /// Everything queued, in the order it will come due.
    pub closed spec fn spec_entries(&self) -> Seq<Entry> {
        self.entries@
    }

    /// Queued entries come due in order, none of them before now.
    pub open spec fn wf(&self) -> bool {
        &&& due_ordered(self.spec_entries())
        &&& forall|i: int| 0 <= i < self.spec_entries().len() ==> self.spec_time() <= (#[trigger] self.spec_entries()[i]).0
    }

    /// An empty schedule at time zero.
    pub fn new() -> (s: Self)
        ensures
            s.wf(),
            s.spec_time() == 0,
            s.spec_entries() == Seq::<Entry>::empty(),
    {
        Self { time: 0, entries: Vec::new() }
    }

    /// The instant of the most recently popped entry.
    pub fn time(&self) -> (t: u64)
        ensures
            t == self.spec_time(),
    {
        self.time
    }

    /// Queue `id` to act `cost` time units from now; a negative cost counts
    /// as zero. The entry goes behind everything due at or before the same
    /// instant.
    pub fn add(&mut self, id: ActorId, cost: i32)
        requires
            old(self).wf(),
            old(self).spec_time() + (if cost > 0 { cost as int } else { 0 }) <= u64::MAX,
        ensures
            final(self).wf(),
            final(self).spec_time() == old(self).spec_time(),
            ({
                let key = old(self).spec_time() + (if cost > 0 { cost as int } else { 0 });
                final(self).spec_entries() == old(self).spec_entries().insert(
                    due_by(old(self).spec_entries(), key) as int,
                    (key as u64, id),
                )
            }),
    {
        let c: u64 = if cost > 0 { cost as u64 } else { 0 };
        let key = self.time + c;
        let ghost s = self.entries@;
        proof {
            lemma_due_by_prefix(s, key as int);
        }
        let mut pos: usize = 0;
        while pos < self.entries.len() && self.entries[pos].0 <= key
            invariant
                self.entries@ == s,
                pos <= s.len(),
                pos <= due_by(s, key as int),
                forall|i: int| 0 <= i < due_by(s, key as int) ==> (#[trigger] s[i]).0 <= key,
                forall|i: int| due_by(s, key as int) <= i < s.len() ==> (#[trigger] s[i]).0 > key,
            decreases s.len() - pos,
        {
            pos = pos + 1;
        }
        proof {
            assert(pos == due_by(s, key as int));
        }
        self.entries.insert(pos, (key, id));
        proof {
            let n = self.entries@;
            assert forall|i: int, j: int| 0 <= i <= j < n.len() implies (#[trigger] n[i]).0 <= (#[trigger] n[j]).0 by {
                if i < pos && j > pos {
                    assert(n[i] == s[i] && n[j] == s[j - 1]);
                } else if i < pos && j < pos {
                    assert(n[i] == s[i] && n[j] == s[j]);
                } else if i > pos {
                    assert(n[i] == s[i - 1] && n[j] == s[j - 1]);
                }
            }
            assert forall|i: int| 0 <= i < n.len() implies self.time <= (#[trigger] n[i]).0 by {
                if i < pos {
                    assert(n[i] == s[i]);
                } else if i > pos {
                    assert(n[i] == s[i - 1]);
                }
            }
        }
    }

    /// Take the next entry due, advancing the clock to its instant.
    pub fn pop(&mut self) -> (r: Option<ActorId>)
        requires
            old(self).wf(),
        ensures
            final(self).wf(),
            old(self).spec_entries().len() == 0 ==> r is None && final(self).spec_entries() == old(self).spec_entries()
                && final(self).spec_time() == old(self).spec_time(),
            old(self).spec_entries().len() > 0 ==> r == Some(old(self).spec_entries()[0].1)
                && final(self).spec_time() == old(self).spec_entries()[0].0
                && final(self).spec_entries() == old(self).spec_entries().drop_first(),
            old(self).spec_time() <= final(self).spec_time(),
    {
        if self.entries.len() == 0 {
            return None;
        }
        let (key, id) = self.entries.remove(0);
        self.time = key;
        proof {
            let o = old(self).entries@;
            assert forall|i: int| 0 <= i < self.entries@.len() implies self.time <= (#[trigger] self.entries@[i]).0 by {
                assert(self.entries@[i] == o[i + 1]);
                assert(o[0].0 <= o[i + 1].0);
            }
            assert(self.entries@ =~= o.drop_first());
        }
        Some(id)
    }

    /// Drop the earliest entry for `id`, if it has one.
    ///
    /// Only one: an actor can legitimately hold several entries, and exactly
    /// one of them goes.
    pub fn remove(&mut self, id: ActorId)
        requires
            old(self).wf(),
        ensures
            final(self).wf(),
            final(self).spec_time() == old(self).spec_time(),
            first_of(old(self).spec_entries(), id) matches Some(i) ==> final(self).spec_entries() == old(self).spec_entries().remove(i),
            first_of(old(self).spec_entries(), id) is None ==> final(self).spec_entries() == old(self).spec_entries(),
    {
        let ghost s = self.entries@;
        proof {
            lemma_first_of(s, id);
        }
        let mut i: usize = 0;
        while i < self.entries.len()
            invariant
                self.entries@ == s,
                self.time == old(self).time,
                s == old(self).entries@,
                due_ordered(s),
                forall|j: int| 0 <= j < s.len() ==> self.time <= (#[trigger] s[j]).0,
                i <= s.len(),
                forall|j: int| 0 <= j < i ==> (#[trigger] s[j]).1 != id,
            decreases s.len() - i,
        {
            if self.entries[i].1 == id {
                self.entries.remove(i);
                proof {
                    lemma_first_of(s, id);
                    let n = self.entries@;
                    assert(first_of(s, id) == Some(i as int)) by {
                        if first_of(s, id) is None {
                            assert(s[i as int].1 != id);
                        } else {
                            let k = first_of(s, id)->0;
                            if k < i {
                                assert(s[k].1 != id);
                            } else if k > i {
                                assert(s[i as int].1 != id);
                            }
                        }
                    }
                    assert forall|a: int, b: int| 0 <= a <= b < n.len() implies (#[trigger] n[a]).0 <= (#[trigger] n[b]).0 by {
                        let a2 = if a < i { a } else { a + 1 };
                        let b2 = if b < i { b } else { b + 1 };
                        assert(n[a] == s[a2] && n[b] == s[b2]);
                    }
                    assert forall|a: int| 0 <= a < n.len() implies self.time <= (#[trigger] n[a]).0 by {
                        let a2 = if a < i { a } else { a + 1 };
                        assert(n[a] == s[a2]);
                    }
                }
                return;
            }
            i = i + 1;
        }
        proof {
            lemma_first_of(s, id);
            if first_of(s, id) is Some {
                let k = first_of(s, id)->0;
                assert(s[k].1 != id);
            }
        }
    }

    /// When `id` next acts, if it is queued at all.
    pub fn scheduled_for(&self, id: ActorId) -> (r: Option<u64>)
        ensures
            first_of(self.spec_entries(), id) matches Some(i) ==> r == Some(self.spec_entries()[i].0),
            first_of(self.spec_entries(), id) is None ==> r is None,
    {
        let ghost s = self.entries@;
        proof {
            lemma_first_of(s, id);
        }
        let mut i: usize = 0;
        while i < self.entries.len()
            invariant
                self.entries@ == s,
                i <= s.len(),
                forall|j: int| 0 <= j < i ==> (#[trigger] s[j]).1 != id,
            decreases s.len() - i,
        {
            if self.entries[i].1 == id {
                proof {
                    lemma_first_of(s, id);
                    if first_of(s, id) is None {
                        assert(s[i as int].1 != id);
                    } else {
                        let k = first_of(s, id)->0;
                        if k < i {
                            assert(s[k].1 != id);
                        } else if k > i {
                            assert(s[i as int].1 != id);
                        }
                    }
                }
                return Some(self.entries[i].0);
            }
            i = i + 1;
        }
        proof {
            lemma_first_of(s, id);
            if first_of(s, id) is Some {
                let k = first_of(s, id)->0;
                assert(s[k].1 != id);
            }
        }
        None
    }

    /// How many entries `id` holds. More than one is two turns for the price
    /// of one: the corruption a terror core must never cause.
    pub fn entries_for(&self, id: ActorId) -> (n: usize)
        ensures
            n == self.spec_entries().filter(|e: Entry| e.1 == id).len(),
    {
        let mut n: usize = 0;
        let mut i: usize = 0;
        while i < self.entries.len()
            invariant
                i <= self.entries@.len(),
                n == self.entries@.take(i as int).filter(|e: Entry| e.1 == id).len(),
                n <= i,
            decreases self.entries@.len() - i,
        {
            let e = self.entries[i];
            proof {
                assert(self.entries@.take(i + 1) == self.entries@.take(i as int).push(e));
                self.entries@.take(i as int).lemma_filter_push(e, |x: Entry| x.1 == id);
            }
            if e.1 == id {
                n = n + 1;
            }
            i = i + 1;
        }
        proof {
            assert(self.entries@.take(i as int) == self.entries@);
        }
        n
    }

    /// When the earliest queued entry comes due, if anything is queued.
    pub fn next_due(&self) -> (r: Option<u64>)
        ensures
            self.spec_entries().len() == 0 ==> r is None,
            self.spec_entries().len() > 0 ==> r == Some(self.spec_entries()[0].0),
    {
        if self.entries.len() == 0 {
            None
        } else {
            Some(self.entries[0].0)
        }
    }

    /// Whether anything at all is queued.
    pub fn is_empty(&self) -> (b: bool)
        ensures
            b == (self.spec_entries().len() == 0),
    {
        self.entries.len() == 0
    }

    /// Drop everything and rewind the clock, as a finished run does. The UI
    /// keeps its own monotone turn counter for exactly this reason.
    pub fn clear(&mut self)
        ensures
            final(self).wf(),
            final(self).spec_time() == 0,
            final(self).spec_entries() == Seq::<Entry>::empty(),
    {
        self.time = 0;
        self.entries.clear();
    }
}

/// Time never runs backwards while a run is in progress: whatever pops next
/// is due no earlier than now, so the clock only climbs.
pub proof fn law_pop_never_rewinds(s: Schedule)
    requires
        s.wf(),
        s.spec_entries().len() > 0,
    ensures
        s.spec_time() <= s.spec_entries()[0].0,
        forall|i: int| 0 <= i < s.spec_entries().len() ==> s.spec_entries()[0].0 <= (#[trigger] s.spec_entries()[i]).0,
{
}

/// Ties are first in, first out: two entries added for the same instant, one
/// after the other, come due in the order they were added.
pub proof fn law_ties_are_first_in_first_out(s: Seq<Entry>, key: u64, a: ActorId, b: ActorId)
    requires
        due_ordered(s),
    ensures
        ({
            let p = due_by(s, key as int) as int;
            let s1 = s.insert(p, (key, a));
            let q = due_by(s1, key as int) as int;
            let s2 = s1.insert(q, (key, b));
            &&& p < q
            &&& s2[p] == (key, a)
            &&& s2[q] == (key, b)
        }),
{
    let p = due_by(s, key as int) as int;
    lemma_due_by_prefix(s, key as int);
    let s1 = s.insert(p, (key, a));
    assert(due_ordered(s1)) by {
        assert forall|i: int, j: int| 0 <= i <= j < s1.len() implies (#[trigger] s1[i]).0 <= (#[trigger] s1[j]).0 by {
            if i < p && j > p {
                assert(s1[i] == s[i] && s1[j] == s[j - 1]);
            } else if i < p && j < p {
                assert(s1[i] == s[i] && s1[j] == s[j]);
            } else if i > p {
                assert(s1[i] == s[i - 1] && s1[j] == s[j - 1]);
            }
        }
    }
    lemma_due_by_prefix(s1, key as int);
    let q = due_by(s1, key as int) as int;
    assert(s1[p].0 <= key);
    assert(p < q);
}

/// Each schedule in `run` comes from the one before it by an `add`, a `pop`
/// or a `remove`: none of them turns the clock back.
pub open spec fn clock_run(run: Seq<Schedule>) -> bool {
    forall|k: int| 0 <= k < run.len() - 1 ==> (#[trigger] run[k]).spec_time() <= run[k + 1].spec_time()
}

/// Over any run of adds, pops and removes the clock never goes backwards:
/// a later schedule's time is never before an earlier one's.
pub proof fn law_time_never_runs_back(run: Seq<Schedule>, i: int, j: int)
    requires
        clock_run(run),
        0 <= i <= j < run.len(),
    ensures
        run[i].spec_time() <= run[j].spec_time(),
    decreases j - i,
{
    if i < j {
        law_time_never_runs_back(run, i, j - 1);
        assert(run[j - 1].spec_time() <= run[j].spec_time());
    }
}

} // verus!
