use vstd::prelude::*;

verus! {

/// One race: every candidate is tried, each by its own worker, and the first
/// worker to report success takes the single winner slot.
///
/// A worker reports once, by the candidate's index. Successes reported after
/// the slot is taken change nothing. The winner is read only once every
/// worker has reported.
pub struct Race {
    candidates: Vec<u16>,
    reported: Vec<bool>,
    accepted: Vec<bool>,
    winner: Option<u16>,
}

impl Race {
    pub closed spec fn candidates_view(self) -> Seq<u16> {
        self.candidates@
    }

    /// Which workers have reported.
    pub closed spec fn reported_view(self) -> Seq<bool> {
        self.reported@
    }

    /// Which workers have reported success.
    pub closed spec fn accepted_view(self) -> Seq<bool> {
        self.accepted@
    }

    /// The winner slot.
    pub closed spec fn slot(self) -> Option<u16> {
        self.winner
    }

    pub open spec fn finished(self) -> bool {
        forall|i: int| 0 <= i < self.reported_view().len() ==> #[trigger] self.reported_view()[i]
    }

    /// The slot holds a candidate whose worker reported success, and is empty
    /// only while no worker has.
    pub open spec fn wf(self) -> bool {
        &&& self.reported_view().len() == self.candidates_view().len()
        &&& self.accepted_view().len() == self.candidates_view().len()
        &&& forall|i: int|
            0 <= i < self.accepted_view().len() && #[trigger] self.accepted_view()[i]
                ==> self.reported_view()[i]
        &&& (self.slot() is None <==> forall|i: int|
            0 <= i < self.accepted_view().len() ==> !#[trigger] self.accepted_view()[i])
        &&& (self.slot() matches Some(p) ==> exists|i: int|
            0 <= i < self.accepted_view().len() && #[trigger] self.accepted_view()[i]
                && self.candidates_view()[i] == p)
    }

    /// A race over `candidates` in which no worker has reported yet.
    pub fn new(candidates: Vec<u16>) -> (r: Race)
        ensures
            r.wf(),
            r.candidates_view() == candidates@,
            r.slot() is None,
            forall|i: int| 0 <= i < candidates@.len() ==> !#[trigger] r.reported_view()[i],
    {
        let mut reported: Vec<bool> = Vec::new();
        let mut accepted: Vec<bool> = Vec::new();
        let mut i: usize = 0;
        while i < candidates.len()
            invariant
                i <= candidates@.len(),
                reported@.len() == i,
                accepted@.len() == i,
                forall|k: int| 0 <= k < i ==> !(#[trigger] reported@[k]),
                forall|k: int| 0 <= k < i ==> !(#[trigger] accepted@[k]),
            decreases candidates@.len() - i,
        {
            reported.push(false);
            accepted.push(false);
            i = i + 1;
        }
        let r = Race { candidates, reported, accepted, winner: None };
        assert(r.accepted_view() == accepted@ && r.reported_view() == reported@);
        r
    }

    pub fn candidates(&self) -> (r: &Vec<u16>)
        ensures
            r@ == self.candidates_view(),
    {
        &self.candidates
    }

    /// Records what the worker of candidate `index` found. A success takes
    /// the slot if it is still empty; otherwise the slot is kept.
    pub fn report(&mut self, index: usize, success: bool)
        requires
            old(self).wf(),
            index < old(self).candidates_view().len(),
            !old(self).reported_view()[index as int],
        ensures
            final(self).wf(),
            final(self).candidates_view() == old(self).candidates_view(),
            final(self).reported_view() == old(self).reported_view().update(index as int, true),
            final(self).accepted_view() == old(self).accepted_view().update(index as int, success),
            final(self).slot() == (if old(self).slot() is None && success {
                Some(old(self).candidates_view()[index as int])
            } else {
                old(self).slot()
            }),
    {
        let ghost before = self.accepted@;
        self.reported.set(index, true);
        self.accepted.set(index, success);
        if success && self.winner.is_none() {
            self.winner = Some(self.candidates[index]);
        }
        proof {
            let after = self.accepted@;
            if let Some(p) = self.winner {
                if old(self).winner is None {
                    assert(after[index as int]);
                    assert(self.accepted_view()[index as int]);
                } else {
                    let j = choose|j: int|
                        0 <= j < before.len() && #[trigger] old(self).accepted_view()[j]
                            && old(self).candidates_view()[j] == p;
                    if j != index {
                        assert(after[j]);
                        assert(self.accepted_view()[j]);
                    } else {
                        assert(old(self).reported_view()[index as int]);
                    }
                }
            } else {
                assert(!success);
                assert forall|i: int| 0 <= i < after.len() implies !#[trigger] after[i] by {
                    if i != index {
                        assert(!old(self).accepted_view()[i]);
                    }
                }
            }
            assert forall|i: int| 0 <= i < after.len() && #[trigger] after[i] implies self.reported@[i] by {
                if i != index {
                    assert(before[i]);
                    assert(old(self).accepted_view()[i]);
                }
            }
            assert(self.accepted_view() == after);
        }
    }

    /// Whether every worker has reported.
    pub fn is_finished(&self) -> (r: bool)
        requires
            self.wf(),
        ensures
            r == self.finished(),
    {
        let mut i: usize = 0;
        while i < self.reported.len()
            invariant
                i <= self.reported@.len(),
                forall|k: int| 0 <= k < i ==> #[trigger] self.reported@[k],
            decreases self.reported@.len() - i,
        {
            if !self.reported[i] {
                assert(!self.reported_view()[i as int]);
                return false;
            }
            i = i + 1;
        }
        true
    }

    /// The race's result, read once every worker has reported: a candidate
    /// whose worker succeeded, or `None` when none did.
    pub fn winner(&self) -> (r: Option<u16>)
        requires
            self.wf(),
            self.finished(),
        ensures
            r == self.slot(),
            r is None <==> forall|i: int|
                0 <= i < self.accepted_view().len() ==> !#[trigger] self.accepted_view()[i],
            r matches Some(p) ==> exists|i: int|
                0 <= i < self.accepted_view().len() && #[trigger] self.accepted_view()[i]
                    && self.candidates_view()[i] == p,
    {
        self.winner
    }
}

/// When every worker has reported, and worker `i` succeeded exactly when
/// candidate `i` is in `succeeds`: the race has no winner if no candidate is
/// in `succeeds`, and otherwise its winner is a candidate in `succeeds`.
pub proof fn lemma_race_picks_success(race: Race, succeeds: Set<u16>)
    requires
        race.wf(),
        race.finished(),
        forall|i: int|
            0 <= i < race.candidates_view().len() ==> (#[trigger] race.accepted_view()[i]
                <==> succeeds.contains(race.candidates_view()[i])),
    ensures
        race.slot() is None <==> forall|p: u16| #[trigger] race.candidates_view().contains(p) ==> !succeeds.contains(p),
        race.slot() matches Some(p) ==> succeeds.contains(p) && race.candidates_view().contains(p),
{
    let c = race.candidates_view();
    if race.slot() is None {
        assert forall|p: u16| #[trigger] c.contains(p) implies !succeeds.contains(p) by {
            let k = choose|k: int| 0 <= k < c.len() && c[k] == p;
            assert(!race.accepted_view()[k]);
        }
    } else {
        let p = race.slot()->Some_0;
        let k = choose|k: int|
            0 <= k < race.accepted_view().len() && #[trigger] race.accepted_view()[k] && c[k] == p;
        assert(c.contains(p));
    }
}

} // verus!
