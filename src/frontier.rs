//! Priority queue of A* states, with one bucket for each priority.
use vstd::prelude::*;

use crate::astar_state::AstarState;

verus! {

/// Number of distinct priorities.
pub const PRIORITIES: usize = 256;

/// Total number of entries in all buckets.
pub open spec fn total<T>(s: Seq<Seq<T>>) -> nat
    decreases s.len(),
{
    if s.len() == 0 {
        0
    } else {
        total(s.drop_last()) + s.last().len()
    }
}

/// Replacing one bucket changes the total by the difference of the lengths.
pub proof fn lemma_total_update<T>(s: Seq<Seq<T>>, b: int, t: Seq<T>)
    requires
        0 <= b < s.len(),
    ensures
        total(s.update(b, t)) == total(s) - s[b].len() + t.len(),
    decreases s.len(),
{
    let u = s.update(b, t);
    if b == s.len() - 1 {
        assert(u.drop_last() =~= s.drop_last());
    } else {
        assert(u.drop_last() =~= s.drop_last().update(b, t));
        lemma_total_update(s.drop_last(), b, t);
    }
}

/// A bucket holds at most the total.
pub proof fn lemma_total_bound<T>(s: Seq<Seq<T>>, b: int)
    requires
        0 <= b < s.len(),
    ensures
        s[b].len() <= total(s),
    decreases s.len(),
{
    if b < s.len() - 1 {
        lemma_total_bound(s.drop_last(), b);
    }
}

/// Buckets that are all empty hold nothing.
pub proof fn lemma_total_empty<T>(s: Seq<Seq<T>>)
    requires
        forall|b: int| 0 <= b < s.len() ==> (#[trigger] s[b]).len() == 0,
    ensures
        total(s) == 0,
    decreases s.len(),
{
    if s.len() > 0 {
        assert(s.last() == s[s.len() - 1]);
        lemma_total_empty(s.drop_last());
    }
}

/// States waiting to be expanded, taken out lowest priority first.
pub struct Frontier<const PUZZLE_SIZE: usize> {
    buckets: Vec<Vec<AstarState<PUZZLE_SIZE>>>,
    lowest: usize,
}

impl<const PUZZLE_SIZE: usize> Frontier<PUZZLE_SIZE> {
    /// Bucket `p` holds the waiting states of priority `p`.
    pub closed spec fn buckets_spec(&self) -> Seq<Seq<AstarState<PUZZLE_SIZE>>> {
        self.buckets@.map_values(|b: Vec<AstarState<PUZZLE_SIZE>>| b@)
    }

    /// Number of waiting states.
    pub open spec fn len_spec(&self) -> nat {
        total(self.buckets_spec())
    }

    /// One bucket for each priority, each state in the bucket of its priority, and no
    /// state below the lowest bucket that may be filled.
    pub closed spec fn wf(&self) -> bool {
        &&& self.buckets@.len() == PRIORITIES
        &&& self.lowest <= PRIORITIES
        &&& forall|b: int| 0 <= b < self.lowest ==> (#[trigger] self.buckets@[b])@.len() == 0
        &&& forall|b: int, i: int| 0 <= b < PRIORITIES && 0 <= i < self.buckets@[b]@.len()
            ==> (#[trigger] self.buckets@[b]@[i]).f_spec() as int == b
    }

    /// An empty frontier.
    pub fn new() -> (r: Self)
        ensures
            r.wf(),
            r.buckets_spec().len() == PRIORITIES,
            forall|b: int| 0 <= b < PRIORITIES ==> (#[trigger] r.buckets_spec()[b]).len() == 0,
            r.len_spec() == 0,
    {
        let mut buckets: Vec<Vec<AstarState<PUZZLE_SIZE>>> = Vec::new();
        let mut i: usize = 0;
        while i < PRIORITIES
            invariant
                i <= PRIORITIES,
                buckets@.len() == i,
                forall|b: int| 0 <= b < i ==> (#[trigger] buckets@[b])@.len() == 0,
                total(buckets@.map_values(|b: Vec<AstarState<PUZZLE_SIZE>>| b@)) == 0,
            decreases PRIORITIES - i,
        {
            let ghost before = buckets@.map_values(|b: Vec<AstarState<PUZZLE_SIZE>>| b@);
            buckets.push(Vec::new());
            assert(buckets@.map_values(|b: Vec<AstarState<PUZZLE_SIZE>>| b@).drop_last() =~= before);
            i += 1;
        }
        let r = Frontier { buckets, lowest: 0 };
        assert forall|b: int| 0 <= b < PRIORITIES implies (#[trigger] r.buckets_spec()[b]).len() == 0 by {
            assert(r.buckets_spec()[b] == r.buckets@[b]@);
        }
        r
    }

    /// Adds a state.
    pub fn push(&mut self, state: AstarState<PUZZLE_SIZE>)
        requires
            old(self).wf(),
        ensures
            final(self).wf(),
            final(self).buckets_spec().len() == PRIORITIES,
            final(self).buckets_spec() == old(self).buckets_spec().update(
                state.f_spec() as int,
                old(self).buckets_spec()[state.f_spec() as int].push(state),
            ),
            final(self).len_spec() == old(self).len_spec() + 1,
    {
        let ghost old_buckets = self.buckets_spec();
        let priority = state.f_value() as usize;
        self.buckets[priority].push(state);
        if priority < self.lowest {
            self.lowest = priority;
        }
        proof {
            assert(self.buckets_spec() =~= old_buckets.update(priority as int, old_buckets[priority as int].push(state)));
            lemma_total_update(old_buckets, priority as int, old_buckets[priority as int].push(state));
        }
    }

    /// Takes out a state of the lowest priority present, if any.
    pub fn pop(&mut self) -> (r: Option<AstarState<PUZZLE_SIZE>>)
        requires
            old(self).wf(),
        ensures
            final(self).wf(),
            final(self).buckets_spec().len() == PRIORITIES,
            forall|b: int, i: int| 0 <= b < PRIORITIES && 0 <= i < old(self).buckets_spec()[b].len()
                ==> (#[trigger] old(self).buckets_spec()[b][i]).f_spec() as int == b,
            r is None ==> old(self).len_spec() == 0 && final(self).buckets_spec() == old(self).buckets_spec()
                && forall|b: int| 0 <= b < PRIORITIES ==> (#[trigger] old(self).buckets_spec()[b]).len() == 0,
            r is Some ==> {
                let b = r->0.f_spec() as int;
                &&& 0 <= b < PRIORITIES
                &&& old(self).buckets_spec()[b].len() > 0
                &&& r->0 == old(self).buckets_spec()[b].last()
                &&& forall|b2: int| 0 <= b2 < b ==> (#[trigger] old(self).buckets_spec()[b2]).len() == 0
                &&& final(self).buckets_spec() == old(self).buckets_spec().update(b, old(self).buckets_spec()[b].drop_last())
                &&& final(self).len_spec() + 1 == old(self).len_spec()
            },
    {
        let ghost old_buckets = self.buckets_spec();
        assert forall|b: int, i: int| 0 <= b < PRIORITIES && 0 <= i < old_buckets[b].len()
            implies (#[trigger] old_buckets[b][i]).f_spec() as int == b by {
            assert(old_buckets[b] == self.buckets@[b]@);
        }
        while self.lowest < PRIORITIES && self.buckets[self.lowest].len() == 0
            invariant
                self.wf(),
                self.buckets_spec() == old_buckets,
            decreases PRIORITIES - self.lowest,
        {
            self.lowest = self.lowest + 1;
        }
        if self.lowest == PRIORITIES {
            proof {
                lemma_total_empty(old_buckets);
            }
            return None;
        }
        let priority = self.lowest;
        let state = self.buckets[priority].pop().unwrap();
        proof {
            lemma_total_bound(old_buckets, priority as int);
            assert(self.buckets_spec() =~= old_buckets.update(priority as int, old_buckets[priority as int].drop_last()));
            lemma_total_update(old_buckets, priority as int, old_buckets[priority as int].drop_last());
        }
        Some(state)
    }
}

} // verus!
