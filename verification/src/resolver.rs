//! First-match resolution over an ordered candidate list. The host probes
//! candidates (worktree lookups, filesystem metadata) in the order the
//! resolver hands them out and reports each outcome; the first successful
//! probe wins and short-circuits the rest. A cancel signal stops the walk:
//! once cancelled, the resolver issues no further probes.

use vstd::prelude::*;

use crate::path_position::MaybePathWithPosition;

verus! {

/// Index of the first `true` in a sequence of probe outcomes.
pub open spec fn first_hit(hits: Seq<bool>) -> Option<int>
    decreases hits.len(),
{
    if hits.len() == 0 {
        None
    } else if hits[0] {
        Some(0int)
    } else {
        match first_hit(hits.drop_first()) {
            Some(i) => Some(i + 1),
            None => None,
        }
    }
}

/// Law: first-match monotonicity. When a prefix of the probe outcomes
/// already has a hit, appending further outcomes (probing more candidates)
/// never changes which candidate wins.
pub proof fn lemma_first_hit_extend(h1: Seq<bool>, h2: Seq<bool>)
    requires
        first_hit(h1) is Some,
    ensures
        first_hit(h1 + h2) == first_hit(h1),
    decreases h1.len(),
{
    if h1.len() > 0 {
        if h1[0] {
            assert((h1 + h2)[0]);
        } else {
            lemma_first_hit_extend(h1.drop_first(), h2);
            assert((h1 + h2).drop_first() =~= h1.drop_first() + h2);
        }
    }
}

/// Recording one more outcome extends the first hit in the obvious way.
pub proof fn lemma_first_hit_push(h: Seq<bool>, b: bool)
    ensures
        first_hit(h.push(b)) == (match first_hit(h) {
            Some(i) => Some(i),
            None => if b {
                Some(h.len() as int)
            } else {
                None
            },
        }),
    decreases h.len(),
{
    assert(h.push(b).len() == h.len() + 1);
    assert(first_hit(h.push(b)) == (if h.push(b)[0] {
        Some(0int)
    } else {
        match first_hit(h.push(b).drop_first()) {
            Some(i) => Some(i + 1),
            None => None,
        }
    }));
    if h.len() == 0 {
        assert(h.push(b)[0] == b);
        if !b {
            assert(h.push(b).drop_first() =~= Seq::<bool>::empty());
        }
    } else {
        lemma_first_hit_push(h.drop_first(), b);
        assert(first_hit(h) == (if h[0] {
            Some(0int)
        } else {
            match first_hit(h.drop_first()) {
                Some(i) => Some(i + 1),
                None => None,
            }
        }));
        assert(h.push(b)[0] == h[0]);
        assert(h.push(b).drop_first() =~= h.drop_first().push(b));
    }
}

/// The resolver's walk over one ordered candidate list. `hits` is the ghost
/// record of the outcomes reported so far; the open target is always the
/// first hit among them.
pub struct Resolver {
    pub candidates: Vec<MaybePathWithPosition>,
    pub next_index: usize,
    pub cancelled: bool,
    pub found: Option<usize>,
    pub hits: Ghost<Seq<bool>>,
}

impl Resolver {
    /// One outcome is on record per candidate handed out, and `found` is
    /// exactly the first hit among them.
    pub open spec fn wf(&self) -> bool {
        &&& self.next_index == self.hits@.len()
        &&& self.next_index <= self.candidates@.len()
        &&& match self.found {
            Some(i) => first_hit(self.hits@) == Some(i as int),
            None => first_hit(self.hits@) is None,
        }
    }

    /// Starts a resolution over `candidates`, probing them in order.
    pub fn new(candidates: Vec<MaybePathWithPosition>) -> (r: Resolver)
        ensures
            r.wf(),
            r.candidates == candidates,
            !r.cancelled,
            r.hits@ == Seq::<bool>::empty(),
            r.found is None,
    {
        Resolver {
            candidates,
            next_index: 0,
            cancelled: false,
            found: None,
            hits: Ghost(Seq::empty()),
        }
    }

    /// The index of the next candidate to probe, or `None` when the walk is
    /// over: a hit was already found, every candidate was probed, or the
    /// resolution was cancelled. After a cancel signal this never yields an
    /// index again, so no further probes are issued.
    pub fn next_probe(&self) -> (r: Option<usize>)
        requires
            self.wf(),
        ensures
            match r {
                Some(idx) => {
                    &&& !self.cancelled
                    &&& self.found is None
                    &&& idx == self.next_index
                    &&& idx < self.candidates@.len()
                },
                None => self.cancelled || self.found is Some || self.next_index
                    == self.candidates@.len(),
            },
    {
        if self.cancelled {
            None
        } else if self.found.is_some() {
            None
        } else if self.next_index < self.candidates.len() {
            Some(self.next_index)
        } else {
            None
        }
    }

    /// Records the outcome of probing the candidate last handed out. The
    /// first hit wins: later hits never displace it.
    pub fn record(&mut self, hit: bool)
        requires
            old(self).wf(),
            old(self).next_index < old(self).candidates@.len(),
        ensures
            final(self).wf(),
            final(self).candidates == old(self).candidates,
            final(self).cancelled == old(self).cancelled,
            final(self).hits@ == old(self).hits@.push(hit),
            final(self).next_index == old(self).next_index + 1,
            final(self).found == (match old(self).found {
                Some(i) => Some(i),
                None => if hit {
                    Some(old(self).next_index)
                } else {
                    None
                },
            }),
    {
        proof {
            lemma_first_hit_push(self.hits@, hit);
        }
        if hit && self.found.is_none() {
            self.found = Some(self.next_index);
        }
        let n = self.candidates.len();
        proof {
            assert(self.next_index < n);
        }
        self.next_index = self.next_index + 1;
        let ghost new_hits = self.hits@.push(hit);
        self.hits = Ghost(new_hits);
    }

    /// Cancels the resolution: any outcome already found is kept, but no
    /// further probes are issued.
    pub fn cancel(&mut self)
        requires
            old(self).wf(),
        ensures
            final(self).wf(),
            final(self).cancelled,
            final(self).candidates == old(self).candidates,
            final(self).found == old(self).found,
            final(self).hits@ == old(self).hits@,
            final(self).next_index == old(self).next_index,
    {
        self.cancelled = true;
    }

    /// The winning candidate's index: the first reported hit, if any.
    pub fn open_target_index(&self) -> (r: Option<usize>)
        requires
            self.wf(),
        ensures
            r == self.found,
            match r {
                Some(i) => first_hit(self.hits@) == Some(i as int) && i
                    < self.candidates@.len(),
                None => first_hit(self.hits@) is None,
            },
    {
        proof {
            if self.found is Some {
                lemma_first_hit_in_bounds(self.hits@);
            }
        }
        self.found
    }
}

/// A first hit's index lies inside the outcome record.
proof fn lemma_first_hit_in_bounds(h: Seq<bool>)
    ensures
        match first_hit(h) {
            Some(i) => 0 <= i < h.len() && h[i],
            None => true,
        },
    decreases h.len(),
{
    if h.len() > 0 && !h[0] {
        lemma_first_hit_in_bounds(h.drop_first());
    }
}

} // verus!
