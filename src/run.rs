use vstd::prelude::*;

use crate::gate::Gate;
use crate::ledger::Ledger;
use crate::plan::{candidates_view, plan_of, refs_of, AnchorView, Candidate, CandidateView, lemma_replan_is_empty};

verus! {

/// Where one candidate of a run stands.
#[derive(PartialEq, Eq, Structural, Clone, Copy, Debug)]
pub enum ItemState {
    /// Not handed out yet.
    Pending,
    /// Handed out and holding a gate slot.
    InFlight,
    /// The fetch or the write failed.
    Failed,
    /// Written, but the ledger line could not be appended.
    Saved,
    /// Written and recorded in the ledger.
    Recorded,
}

/// How the unit of work for one candidate ended.
#[derive(PartialEq, Eq, Structural, Clone, Copy, Debug)]
pub enum Outcome {
    /// The fetch or the write failed: nothing may be recorded.
    Failed,
    /// The file was written completely; appending the ledger line failed.
    Saved,
    /// The file was written completely, then its ledger line appended.
    Recorded,
}

/// The counts that a run reports.
#[derive(PartialEq, Eq, Structural, Clone, Copy, Debug)]
pub struct RunResult {
    pub total: usize,
    pub succeeded: usize,
    pub failed: usize,
}

pub open spec fn state_of(o: Outcome) -> ItemState {
    match o {
        Outcome::Failed => ItemState::Failed,
        Outcome::Saved => ItemState::Saved,
        Outcome::Recorded => ItemState::Recorded,
    }
}

/// How many entries of `s` equal `k`.
pub open spec fn count_state(s: Seq<ItemState>, k: ItemState) -> nat
    decreases s.len(),
{
    if s.len() == 0 {
        0
    } else {
        count_state(s.drop_last(), k) + if s.last() == k { 1nat } else { 0nat }
    }
}

/// The references of the candidates whose ledger line was appended.
pub open spec fn recorded_refs(cands: Seq<CandidateView>, states: Seq<ItemState>) -> Set<Seq<char>> {
    Set::new(
        |r: Seq<char>|
            exists|i: int|
                0 <= i < cands.len() && i < states.len() && states[i] == ItemState::Recorded && (
                #[trigger] cands[i]).0 == r,
    )
}

proof fn lemma_count_update(s: Seq<ItemState>, i: int, v: ItemState, k: ItemState)
    requires
        0 <= i < s.len(),
    ensures
        count_state(s.update(i, v), k) + (if s[i] == k { 1int } else { 0int }) == count_state(s, k)
            + (if v == k { 1int } else { 0int }),
    decreases s.len(),
{
    let t = s.update(i, v);
    if i == s.len() - 1 {
        assert(t.drop_last() =~= s.drop_last());
    } else {
        assert(t.drop_last() =~= s.drop_last().update(i, v));
        lemma_count_update(s.drop_last(), i, v, k);
    }
}

proof fn lemma_counts_total(s: Seq<ItemState>)
    ensures
        count_state(s, ItemState::Pending) + count_state(s, ItemState::InFlight) + count_state(
            s,
            ItemState::Failed,
        ) + count_state(s, ItemState::Saved) + count_state(s, ItemState::Recorded) == s.len(),
    decreases s.len(),
{
    if s.len() > 0 {
        lemma_counts_total(s.drop_last());
    }
}

proof fn lemma_count_absent(s: Seq<ItemState>, k: ItemState)
    requires
        forall|i: int| 0 <= i < s.len() ==> s[i] != k,
    ensures
        count_state(s, k) == 0,
    decreases s.len(),
{
    if s.len() > 0 {
        lemma_count_absent(s.drop_last(), k);
    }
}

proof fn lemma_count_present(s: Seq<ItemState>, k: ItemState, i: int)
    requires
        0 <= i < s.len(),
        s[i] == k,
    ensures
        count_state(s, k) > 0,
    decreases s.len(),
{
    if i < s.len() - 1 {
        lemma_count_present(s.drop_last(), k, i);
    }
}

/// The work of fetching one listing's candidates: which are handed out,
/// which have finished and how, and what the ledger records meanwhile.
pub struct Run {
    candidates: Vec<Candidate>,
    states: Vec<ItemState>,
    gate: Gate,
    next: usize,
    succeeded: usize,
    failed: usize,
    ledger: Ledger,
    base: Ghost<Set<Seq<char>>>,
}

impl Run {
    pub closed spec fn candidates_spec(&self) -> Seq<CandidateView> {
        candidates_view(self.candidates@)
    }

    pub closed spec fn states_spec(&self) -> Seq<ItemState> {
        self.states@
    }

    pub closed spec fn ledger_spec(&self) -> Set<Seq<char>> {
        self.ledger@
    }

    /// What the ledger recorded when the run began.
    pub closed spec fn base_spec(&self) -> Set<Seq<char>> {
        self.base@
    }

    pub closed spec fn capacity_spec(&self) -> nat {
        self.gate.capacity_spec()
    }

    pub closed spec fn next_spec(&self) -> nat {
        self.next as nat
    }

    /// Number of candidates handed out and not finished.
    pub open spec fn in_flight_spec(&self) -> nat {
        count_state(self.states_spec(), ItemState::InFlight)
    }

    pub open spec fn succeeded_spec(&self) -> nat {
        count_state(self.states_spec(), ItemState::Saved) + count_state(
            self.states_spec(),
            ItemState::Recorded,
        )
    }

    pub open spec fn failed_spec(&self) -> nat {
        count_state(self.states_spec(), ItemState::Failed)
    }

    /// Every candidate has finished.
    pub open spec fn complete_spec(&self) -> bool {
        forall|i: int|
            0 <= i < self.states_spec().len() ==> #[trigger] self.states_spec()[i]
                != ItemState::Pending && self.states_spec()[i] != ItemState::InFlight
    }

    pub closed spec fn wf(&self) -> bool {
        &&& self.states@.len() == self.candidates@.len()
        &&& self.next <= self.states@.len()
        &&& forall|i: int|
            0 <= i < self.states@.len() ==> ((#[trigger] self.states@[i] == ItemState::Pending) <==> i
                >= self.next)
        &&& self.gate.wf()
        &&& self.gate.held_spec() == count_state(self.states@, ItemState::InFlight)
        &&& self.succeeded == count_state(self.states@, ItemState::Saved) + count_state(
            self.states@,
            ItemState::Recorded,
        )
        &&& self.failed == count_state(self.states@, ItemState::Failed)
        &&& self.ledger@ == self.base@.union(recorded_refs(self.candidates_spec(), self.states@))
    }

    /// A run over `candidates` with at most `capacity` of them in flight at
    /// once, recording into `ledger`.
    pub fn new(candidates: Vec<Candidate>, ledger: Ledger, capacity: usize) -> (r: Run)
        requires
            capacity > 0,
        ensures
            r.wf(),
            r.candidates_spec() == candidates_view(candidates@),
            r.states_spec() == Seq::new(candidates@.len(), |i: int| ItemState::Pending),
            r.next_spec() == 0,
            r.capacity_spec() == capacity,
            r.ledger_spec() == ledger@,
            r.base_spec() == ledger@,
    {
        let n = candidates.len();
        let mut states: Vec<ItemState> = Vec::new();
        let mut i: usize = 0;
        while i < n
            invariant
                i <= n,
                states@ == Seq::new(i as nat, |j: int| ItemState::Pending),
            decreases n - i,
        {
            states.push(ItemState::Pending);
            assert(states@ =~= Seq::new((i + 1) as nat, |j: int| ItemState::Pending));
            i = i + 1;
        }
        let ghost base = ledger@;
        let r = Run {
            candidates,
            states,
            gate: Gate::new(capacity),
            next: 0,
            succeeded: 0,
            failed: 0,
            ledger,
            base: Ghost(base),
        };
        proof {
            lemma_count_absent(r.states@, ItemState::InFlight);
            lemma_count_absent(r.states@, ItemState::Saved);
            lemma_count_absent(r.states@, ItemState::Recorded);
            lemma_count_absent(r.states@, ItemState::Failed);
            assert(recorded_refs(r.candidates_spec(), r.states@) =~= Set::<Seq<char>>::empty());
            assert(base.union(Set::<Seq<char>>::empty()) =~= base);
        }
        r
    }

    /// Number of candidates in the run.
    pub fn len(&self) -> (r: usize)
        ensures
            r == self.candidates_spec().len(),
    {
        proof {
            assert(candidates_view(self.candidates@).len() == self.candidates@.len());
        }
        self.candidates.len()
    }

    /// The candidate at `index`.
    pub fn candidate(&self, index: usize) -> (r: &Candidate)
        requires
            index < self.candidates_spec().len(),
        ensures
            r@ == self.candidates_spec()[index as int],
    {
        &self.candidates[index]
    }

    /// Where the candidate at `index` stands.
    pub fn state(&self, index: usize) -> (r: ItemState)
        requires
            self.wf(),
            index < self.candidates_spec().len(),
        ensures
            r == self.states_spec()[index as int],
    {
        self.states[index]
    }

    /// The ledger as it stands.
    pub fn ledger(&self) -> (r: &Ledger)
        ensures
            r@ == self.ledger_spec(),
    {
        &self.ledger
    }

    /// Ends the run and hands back its ledger.
    pub fn into_ledger(self) -> (r: Ledger)
        ensures
            r@ == self.ledger_spec(),
    {
        self.ledger
    }

    /// Hands out the next pending candidate when a gate slot is free; `None`
    /// when every slot is held or nothing is pending.
    pub fn dispatch(&mut self) -> (r: Option<usize>)
        requires
            old(self).wf(),
        ensures
            final(self).wf(),
            final(self).candidates_spec() == old(self).candidates_spec(),
            final(self).capacity_spec() == old(self).capacity_spec(),
            final(self).base_spec() == old(self).base_spec(),
            final(self).ledger_spec() == old(self).ledger_spec(),
            r is Some <==> (old(self).next_spec() < old(self).candidates_spec().len()
                && old(self).in_flight_spec() < old(self).capacity_spec()),
            match r {
                Some(i) => i == old(self).next_spec() && final(self).next_spec() == i + 1
                    && final(self).states_spec() == old(self).states_spec().update(
                    i as int,
                    ItemState::InFlight,
                ),
                None => final(self).states_spec() == old(self).states_spec()
                    && final(self).next_spec() == old(self).next_spec(),
            },
    {
        if self.next >= self.states.len() {
            return None;
        }
        if !self.gate.try_acquire() {
            return None;
        }
        let i = self.next;
        let ghost s0 = self.states@;
        self.states.set(i, ItemState::InFlight);
        self.next = i + 1;
        proof {
            assert(s0[i as int] == ItemState::Pending);
            lemma_count_update(s0, i as int, ItemState::InFlight, ItemState::InFlight);
            lemma_count_update(s0, i as int, ItemState::InFlight, ItemState::Saved);
            lemma_count_update(s0, i as int, ItemState::InFlight, ItemState::Recorded);
            lemma_count_update(s0, i as int, ItemState::InFlight, ItemState::Failed);
            let c = self.candidates_spec();
            assert forall|r: Seq<char>|
                recorded_refs(c, self.states@).contains(r) == recorded_refs(c, s0).contains(r) by {
                if recorded_refs(c, self.states@).contains(r) {
                    let j = choose|j: int|
                        0 <= j < c.len() && j < self.states@.len() && self.states@[j]
                            == ItemState::Recorded && (#[trigger] c[j]).0 == r;
                    assert(s0[j] == self.states@[j]);
                }
                if recorded_refs(c, s0).contains(r) {
                    let j = choose|j: int|
                        0 <= j < c.len() && j < s0.len() && s0[j] == ItemState::Recorded && (
                        #[trigger] c[j]).0 == r;
                    assert(s0[j] == self.states@[j]);
                }
            }
            assert(recorded_refs(c, self.states@) =~= recorded_refs(c, s0));
        }
        Some(i)
    }

    /// Ends the unit of work of the in-flight candidate `index` with
    /// `outcome`: its gate slot is given back, the counts move, and its
    /// reference joins the ledger exactly when its ledger line was appended.
    pub fn finish(&mut self, index: usize, outcome: Outcome)
        requires
            old(self).wf(),
            index < old(self).candidates_spec().len(),
            old(self).states_spec()[index as int] == ItemState::InFlight,
        ensures
            final(self).wf(),
            final(self).candidates_spec() == old(self).candidates_spec(),
            final(self).capacity_spec() == old(self).capacity_spec(),
            final(self).base_spec() == old(self).base_spec(),
            final(self).next_spec() == old(self).next_spec(),
            final(self).states_spec() == old(self).states_spec().update(
                index as int,
                state_of(outcome),
            ),
            final(self).in_flight_spec() + 1 == old(self).in_flight_spec(),
            final(self).succeeded_spec() == old(self).succeeded_spec() + if outcome
                == Outcome::Failed { 0nat } else { 1nat },
            final(self).failed_spec() == old(self).failed_spec() + if outcome == Outcome::Failed {
                1nat
            } else {
                0nat
            },
            final(self).ledger_spec() == if outcome == Outcome::Recorded {
                old(self).ledger_spec().insert(old(self).candidates_spec()[index as int].0)
            } else {
                old(self).ledger_spec()
            },
    {
        let ghost s0 = self.states@;
        let ghost c = self.candidates_spec();
        let st = match outcome {
            Outcome::Failed => ItemState::Failed,
            Outcome::Saved => ItemState::Saved,
            Outcome::Recorded => ItemState::Recorded,
        };
        self.states.set(index, st);
        let n = self.states.len();
        proof {
            assert(n == s0.len());
            lemma_count_update(s0, index as int, st, ItemState::InFlight);
            lemma_count_update(s0, index as int, st, ItemState::Saved);
            lemma_count_update(s0, index as int, st, ItemState::Recorded);
            lemma_count_update(s0, index as int, st, ItemState::Failed);
            lemma_count_present(s0, ItemState::InFlight, index as int);
            lemma_counts_total(s0);
            lemma_counts_total(self.states@);
        }
        self.gate.release();
        match outcome {
            Outcome::Failed => {
                self.failed = self.failed + 1;
            },
            _ => {
                self.succeeded = self.succeeded + 1;
            },
        }
        if outcome == Outcome::Recorded {
            self.ledger.insert(self.candidates[index].reference.as_str());
        }
        proof {
            let s1 = self.states@;
            let added = if st == ItemState::Recorded {
                recorded_refs(c, s0).insert(c[index as int].0)
            } else {
                recorded_refs(c, s0)
            };
            assert forall|r: Seq<char>| recorded_refs(c, s1).contains(r) == added.contains(r) by {
                if recorded_refs(c, s1).contains(r) {
                    let j = choose|j: int|
                        0 <= j < c.len() && j < s1.len() && s1[j] == ItemState::Recorded && (
                        #[trigger] c[j]).0 == r;
                    if j != index {
                        assert(s0[j] == s1[j]);
                    }
                }
                if recorded_refs(c, s0).contains(r) {
                    let j = choose|j: int|
                        0 <= j < c.len() && j < s0.len() && s0[j] == ItemState::Recorded && (
                        #[trigger] c[j]).0 == r;
                    assert(j != index);
                    assert(s0[j] == s1[j]);
                }
                if st == ItemState::Recorded && r == c[index as int].0 {
                    assert(s1[index as int] == ItemState::Recorded);
                }
            }
            assert(recorded_refs(c, s1) =~= added);
            assert(self.ledger@ =~= self.base@.union(recorded_refs(c, s1)));
        }
    }

    /// Whether every candidate has finished.
    pub fn is_complete(&self) -> (r: bool)
        requires
            self.wf(),
        ensures
            r == self.complete_spec(),
    {
        proof {
            if self.next == self.states@.len() && self.gate.held_spec() == 0 {
                assert forall|i: int| 0 <= i < self.states@.len() implies #[trigger] self.states@[i]
                    != ItemState::InFlight by {
                    if self.states@[i] == ItemState::InFlight {
                        lemma_count_present(self.states@, ItemState::InFlight, i);
                    }
                }
            }
            if self.next < self.states@.len() {
                assert(self.states@[self.next as int] == ItemState::Pending);
            }
            if self.gate.held_spec() > 0 && self.complete_spec() {
                lemma_count_absent(self.states@, ItemState::InFlight);
            }
        }
        self.next == self.states.len() && self.gate.held() == 0
    }

    /// The counts of the run so far.
    pub fn result(&self) -> (r: RunResult)
        requires
            self.wf(),
        ensures
            r.total == self.candidates_spec().len(),
            r.succeeded == self.succeeded_spec(),
            r.failed == self.failed_spec(),
    {
        RunResult { total: self.len(), succeeded: self.succeeded, failed: self.failed }
    }

    /// Whatever order the units finish in, the ledger holds what it held at
    /// the start and the references of the recorded candidates, nothing else:
    /// a failed candidate adds nothing and holds up no other one.
    pub proof fn lemma_outcomes_isolated(&self)
        requires
            self.wf(),
        ensures
            self.ledger_spec() == self.base_spec().union(
                recorded_refs(self.candidates_spec(), self.states_spec()),
            ),
            forall|i: int|
                0 <= i < self.states_spec().len() && #[trigger] self.states_spec()[i]
                    == ItemState::Recorded ==> self.ledger_spec().contains(
                    self.candidates_spec()[i].0,
                ),
            forall|i: int|
                0 <= i < self.states_spec().len() && #[trigger] self.states_spec()[i]
                    == ItemState::Failed && !self.base_spec().contains(self.candidates_spec()[i].0)
                    && (forall|j: int|
                    0 <= j < self.states_spec().len() && self.states_spec()[j]
                        == ItemState::Recorded ==> self.candidates_spec()[j].0
                        != self.candidates_spec()[i].0) ==> !self.ledger_spec().contains(
                    self.candidates_spec()[i].0,
                ),
            self.capacity_spec() > 0,
            self.next_spec() < self.candidates_spec().len() && self.in_flight_spec()
                < self.capacity_spec() ==> self.states_spec()[self.next_spec() as int]
                == ItemState::Pending,
    {
        let c = self.candidates_spec();
        let s = self.states@;
        assert forall|i: int|
            0 <= i < s.len() && #[trigger] s[i] == ItemState::Recorded implies self.ledger@.contains(
            c[i].0,
        ) by {
            assert(recorded_refs(c, s).contains(c[i].0));
        }
        assert forall|i: int|
            0 <= i < s.len() && #[trigger] s[i] == ItemState::Failed && !self.base@.contains(c[i].0)
                && (forall|j: int|
                0 <= j < s.len() && s[j] == ItemState::Recorded ==> c[j].0 != c[i].0) implies !self.ledger@.contains(
            c[i].0,
        ) by {
            if recorded_refs(c, s).contains(c[i].0) {
                let j = choose|j: int|
                    0 <= j < c.len() && j < s.len() && s[j] == ItemState::Recorded && (
                    #[trigger] c[j]).0 == c[i].0;
                assert(s[j] == ItemState::Recorded);
            }
        }
    }

    /// The number of candidates in flight stays within the capacity.
    pub proof fn lemma_in_flight_bounded(&self)
        requires
            self.wf(),
        ensures
            self.in_flight_spec() <= self.capacity_spec(),
    {
    }

    /// When every candidate has finished, each one either succeeded or failed.
    pub proof fn lemma_complete_counts(&self)
        requires
            self.wf(),
            self.complete_spec(),
        ensures
            self.succeeded_spec() + self.failed_spec() == self.candidates_spec().len(),
            self.in_flight_spec() == 0,
    {
        lemma_counts_total(self.states@);
        lemma_count_absent(self.states@, ItemState::Pending);
        lemma_count_absent(self.states@, ItemState::InFlight);
    }

    /// A run over the candidates planned from a listing, in which every
    /// candidate was recorded, leaves a ledger against which the same listing
    /// yields no candidate.
    pub proof fn lemma_second_run_finds_nothing(
        &self,
        anchors: Seq<AnchorView>,
        marker: Seq<char>,
    )
        requires
            self.wf(),
            self.candidates_spec() == plan_of(anchors, self.base_spec(), marker),
            forall|i: int|
                0 <= i < self.states_spec().len() ==> #[trigger] self.states_spec()[i]
                    == ItemState::Recorded,
        ensures
            plan_of(anchors, self.ledger_spec(), marker) == Seq::<CandidateView>::empty(),
    {
        let c = self.candidates_spec();
        assert forall|r: Seq<char>| refs_of(c).contains(r) implies self.ledger@.contains(r) by {
            let i = choose|i: int| 0 <= i < c.len() && (#[trigger] c[i]).0 == r;
            assert(self.states_spec()[i] == ItemState::Recorded);
            assert(recorded_refs(c, self.states@).contains(r));
        }
        lemma_replan_is_empty(anchors, self.base@, self.ledger@, marker);
    }
}

} // verus!
