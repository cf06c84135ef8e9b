//! The identifiers a projection call has handed on so far.

use std::collections::HashSet;
use vstd::prelude::*;
use crate::ids::ProjectionId;

verus! {

broadcast use vstd::std_specs::hash::group_hash_axioms;

/// Of `ids`, those that are not in `seen`, each where it first occurs.
pub open spec fn fresh(seen: Set<ProjectionId>, ids: Seq<ProjectionId>) -> Seq<ProjectionId>
    decreases ids.len(),
{
    if ids.len() == 0 {
        Seq::empty()
    } else {
        let earlier = fresh(seen, ids.drop_last());
        let id = ids.last();
        if seen.contains(id) || ids.drop_last().contains(id) {
            earlier
        } else {
            earlier.push(id)
        }
    }
}

/// What `fresh` keeps: exactly the ids that are new, none of them twice.
pub proof fn lemma_fresh(seen: Set<ProjectionId>, ids: Seq<ProjectionId>)
    ensures
        fresh(seen, ids).no_duplicates(),
        forall|id: ProjectionId| #[trigger]
            fresh(seen, ids).contains(id) <==> ids.contains(id) && !seen.contains(id),
    decreases ids.len(),
{
    if ids.len() > 0 {
        let front = ids.drop_last();
        let last = ids.last();
        let earlier = fresh(seen, front);
        lemma_fresh(seen, front);
        assert forall|id: ProjectionId| #[trigger]
            fresh(seen, ids).contains(id) <==> ids.contains(id) && !seen.contains(id) by {
            if ids.contains(id) {
                let at = choose|at: int| 0 <= at < ids.len() && ids[at] == id;
                if at < front.len() {
                    assert(front[at] == id);
                }
            }
            if front.contains(id) {
                let at = choose|at: int| 0 <= at < front.len() && front[at] == id;
                assert(ids[at] == id);
            }
            assert(ids[ids.len() - 1] == last);
            if !(seen.contains(last) || front.contains(last)) {
                assert(earlier.push(last)[earlier.len() as int] == last);
                if earlier.push(last).contains(id) {
                    let at = choose|at: int|
                        0 <= at < earlier.push(last).len() && earlier.push(last)[at] == id;
                    if at < earlier.len() {
                        assert(earlier[at] == id);
                    }
                }
                if earlier.contains(id) {
                    let at = choose|at: int| 0 <= at < earlier.len() && earlier[at] == id;
                    assert(earlier.push(last)[at] == id);
                }
            }
        }
        if !(seen.contains(last) || front.contains(last)) {
            assert(!earlier.contains(last));
            assert forall|i: int, j: int|
                0 <= i < earlier.push(last).len() && 0 <= j < earlier.push(last).len() && i
                    != j implies earlier.push(last)[i] != earlier.push(last)[j] by {
                if i < earlier.len() && j < earlier.len() {
                } else if i < earlier.len() {
                    assert(earlier.contains(earlier[i]));
                } else if j < earlier.len() {
                    assert(earlier.contains(earlier[j]));
                }
            }
        }
    }
}

/// The set of identifiers already handed on during one projection call.
/// Holding it by `&mut` is what makes check-then-insert one step.
pub struct SeenSet {
    ids: HashSet<u64>,
}

impl SeenSet {
    pub closed spec fn view(&self) -> Set<ProjectionId> {
        Set::new(|id: ProjectionId| self.ids@.contains(id@))
    }

    pub fn new() -> (seen: Self)
        ensures
            seen@ == Set::<ProjectionId>::empty(),
    {
        let seen = SeenSet { ids: HashSet::new() };
        assert(seen@ =~= Set::<ProjectionId>::empty());
        seen
    }

    pub fn contains(&self, id: ProjectionId) -> (found: bool)
        ensures
            found == self@.contains(id),
    {
        let raw: u64 = id.raw();
        self.ids.contains(&raw)
    }

    /// Records `id`, and says whether it was new.
    pub fn insert(&mut self, id: ProjectionId) -> (was_new: bool)
        ensures
            was_new == !old(self)@.contains(id),
            final(self)@ == old(self)@.insert(id),
    {
        let was_new = self.ids.insert(id.raw());
        proof {
            assert forall|other: ProjectionId| #[trigger]
                self@.contains(other) == old(self)@.insert(id).contains(other) by {
                ProjectionId::lemma_same_handle(other, id);
            }
            assert(self@ =~= old(self)@.insert(id));
        }
        was_new
    }

    /// Records all of `ids` and returns those that were new, each once, in
    /// the order in which they first occur.
    pub fn absorb(&mut self, ids: &Vec<ProjectionId>) -> (batch: Vec<ProjectionId>)
        ensures
            batch@ == fresh(old(self)@, ids@),
            final(self)@ == old(self)@.union(ids@.to_set()),
    {
        let mut batch: Vec<ProjectionId> = Vec::new();
        let len: usize = ids.len();
        let mut k: usize = 0;
        proof {
            assert(self@ =~= old(self)@.union(ids@.take(0).to_set()));
        }
        while k < len
            invariant
                k <= len,
                len == ids@.len(),
                batch@ == fresh(old(self)@, ids@.take(k as int)),
                self@ == old(self)@.union(ids@.take(k as int).to_set()),
            decreases len - k,
        {
            let id = ids[k];
            let ghost front = ids@.take(k as int);
            let ghost upto = ids@.take(k + 1);
            let was_new = self.insert(id);
            proof {
                assert(upto.drop_last() =~= front);
                assert(upto.last() == id);
                assert(front.to_set().contains(id) == front.contains(id));
                assert(self@ =~= old(self)@.union(upto.to_set())) by {
                    assert forall|other: ProjectionId|
                        upto.to_set().contains(other) == (front.to_set().contains(other) || other
                            == id) by {
                        if upto.contains(other) {
                            let at = choose|at: int| 0 <= at < upto.len() && upto[at] == other;
                            if at < front.len() {
                                assert(front[at] == other);
                            }
                        }
                        if front.contains(other) {
                            let at = choose|at: int| 0 <= at < front.len() && front[at] == other;
                            assert(upto[at] == other);
                        }
                        assert(upto[k as int] == id);
                    }
                }
            }
            if was_new {
                batch.push(id);
            }
            k += 1;
        }
        proof {
            assert(ids@.take(len as int) =~= ids@);
        }
        batch
    }
}

} // verus!
