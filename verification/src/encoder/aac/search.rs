//! The search for the finest quantization that fits a bit budget.
//!
//! The cost falls as the masking thresholds are raised, so the search brackets
//! the budget and bisects the bracket. It starts from what the previous frame
//! settled on: from there it lowers the thresholds step by step as long as the
//! frame fits, or raises them until it does. Each probe's scale is known to
//! the caller; the search knows the probes by their numbers.

use vstd::prelude::*;

verus! {

/// What the search does next.
#[derive(Debug, Clone, Copy, PartialEq, Eq, Structural)]
pub enum Phase {
    /// Probe the scale of the previous frame.
    Hint,
    /// Probe below the upper edge, in steps that double.
    Lowering,
    /// Probe above the lower edge, in steps that double.
    Raising,
    /// Probe half way between the edges.
    Bisecting,
    /// Nothing is left to probe.
    Done,
}

/// An edge of the bracket.
#[derive(Debug, Clone, Copy, PartialEq, Eq, Structural)]
pub enum Edge {
    /// The least scale there is.
    Floor,
    /// The greatest scale there is.
    Ceiling,
    /// The scale of a probe.
    Probe(usize),
}

/// The state of a search.
pub struct Search {
    phase: Phase,
    low: Edge,
    high: Edge,
    tried: usize,
    outcomes: Ghost<Seq<bool>>,
}

/// The last probe whose outcome was `outcome`.
pub open spec fn last_with(outcomes: Seq<bool>, outcome: bool) -> Option<int>
    decreases outcomes.len(),
{
    if outcomes.len() == 0 {
        None
    } else if outcomes.last() == outcome {
        Some(outcomes.len() - 1)
    } else {
        last_with(outcomes.drop_last(), outcome)
    }
}

/// The edge at a probe, or at the end of the scale if there is none.
pub open spec fn edge(probe: Option<int>, end: Edge) -> Edge {
    match probe {
        Some(i) => Edge::Probe(i as usize),
        None => end,
    }
}

/// The phase after a probe.
pub open spec fn phase_after(phase: Phase, fits: bool) -> Phase {
    match phase {
        Phase::Hint => if fits {
            Phase::Lowering
        } else {
            Phase::Raising
        },
        Phase::Lowering => if fits {
            Phase::Lowering
        } else {
            Phase::Bisecting
        },
        Phase::Raising => if fits {
            Phase::Bisecting
        } else {
            Phase::Raising
        },
        _ => phase,
    }
}

/// The phase where the present one has no room for another probe.
pub open spec fn phase_without_room(phase: Phase) -> Phase {
    match phase {
        Phase::Lowering | Phase::Raising => Phase::Bisecting,
        Phase::Bisecting => Phase::Done,
        _ => phase,
    }
}

impl Search {
    /// The outcomes of the probes so far: whether each one fit the budget.
    pub closed spec fn outcomes(self) -> Seq<bool> {
        self.outcomes@
    }

    pub closed spec fn phase_of(self) -> Phase {
        self.phase
    }

    #[verifier::type_invariant]
    closed spec fn inv(self) -> bool {
        &&& self.tried == self.outcomes@.len()
        &&& self.low == edge(last_with(self.outcomes@, false), Edge::Floor)
        &&& self.high == edge(last_with(self.outcomes@, true), Edge::Ceiling)
    }

    /// A search that starts with the scale of the previous frame.
    pub fn new() -> (r: Self)
        ensures
            r.outcomes() == Seq::<bool>::empty(),
            r.phase_of() == Phase::Hint,
    {
        Search {
            phase: Phase::Hint,
            low: Edge::Floor,
            high: Edge::Ceiling,
            tried: 0,
            outcomes: Ghost(Seq::empty()),
        }
    }

    /// A search that bisects the whole scale from the start.
    pub fn bisecting() -> (r: Self)
        ensures
            r.outcomes() == Seq::<bool>::empty(),
            r.phase_of() == Phase::Bisecting,
    {
        Search {
            phase: Phase::Bisecting,
            low: Edge::Floor,
            high: Edge::Ceiling,
            tried: 0,
            outcomes: Ghost(Seq::empty()),
        }
    }

    pub fn phase(&self) -> (r: Phase)
        ensures
            r == self.phase_of(),
    {
        self.phase
    }

    /// The lower edge: the last probe that did not fit.
    pub fn low(&self) -> (r: Edge)
        ensures
            r == edge(last_with(self.outcomes(), false), Edge::Floor),
    {
        proof {
            use_type_invariant(self);
        }
        self.low
    }

    /// The upper edge: the last probe that fit. It is what the search settles
    /// on.
    pub fn high(&self) -> (r: Edge)
        ensures
            r == edge(last_with(self.outcomes(), true), Edge::Ceiling),
    {
        proof {
            use_type_invariant(self);
        }
        self.high
    }

    /// Takes in the outcome of a probe.
    pub fn observe(self, fits: bool) -> (r: Self)
        requires
            self.outcomes().len() < usize::MAX,
        ensures
            r.outcomes() == self.outcomes().push(fits),
            r.phase_of() == phase_after(self.phase_of(), fits),
    {
        proof {
            use_type_invariant(&self);
            assert(self.outcomes@.push(fits).drop_last() =~= self.outcomes@);
        }
        let phase: Phase = match self.phase {
            Phase::Hint => if fits {
                Phase::Lowering
            } else {
                Phase::Raising
            },
            Phase::Lowering => if fits {
                Phase::Lowering
            } else {
                Phase::Bisecting
            },
            Phase::Raising => if fits {
                Phase::Bisecting
            } else {
                Phase::Raising
            },
            other => other,
        };
        let here: Edge = Edge::Probe(self.tried);
        Search {
            phase,
            low: if fits {
                self.low
            } else {
                here
            },
            high: if fits {
                here
            } else {
                self.high
            },
            tried: self.tried + 1,
            outcomes: Ghost(self.outcomes@.push(fits)),
        }
    }

    /// Moves on where the present phase has no room for another probe.
    pub fn out_of_room(self) -> (r: Self)
        ensures
            r.outcomes() == self.outcomes(),
            r.phase_of() == phase_without_room(self.phase_of()),
    {
        proof {
            use_type_invariant(&self);
        }
        let phase: Phase = match self.phase {
            Phase::Lowering => Phase::Bisecting,
            Phase::Raising => Phase::Bisecting,
            Phase::Bisecting => Phase::Done,
            other => other,
        };
        Search {
            phase,
            low: self.low,
            high: self.high,
            tried: self.tried,
            outcomes: Ghost(self.outcomes@),
        }
    }
}

/// What a search settles on fit the budget, unless no probe did: then it is
/// the greatest scale there is. The lower edge never fit.
pub proof fn law_settles_within_budget(outcomes: Seq<bool>)
    requires
        outcomes.len() <= usize::MAX,
    ensures
        match edge(last_with(outcomes, true), Edge::Ceiling) {
            Edge::Probe(i) => i < outcomes.len() && outcomes[i as int] && forall|k: int|
                i < k < outcomes.len() ==> !#[trigger] outcomes[k],
            _ => forall|k: int| 0 <= k < outcomes.len() ==> !#[trigger] outcomes[k],
        },
        match edge(last_with(outcomes, false), Edge::Floor) {
            Edge::Probe(i) => i < outcomes.len() && !outcomes[i as int],
            _ => forall|k: int| 0 <= k < outcomes.len() ==> #[trigger] outcomes[k],
        },
    decreases outcomes.len(),
{
    if outcomes.len() > 0 {
        let before = outcomes.drop_last();
        law_settles_within_budget(before);
        assert forall|k: int| 0 <= k < before.len() implies #[trigger] outcomes[k]
            == before[k] by {}
    }
}

/// The phase after a list of outcomes.
pub open spec fn phase_through(start: Phase, outcomes: Seq<bool>) -> Phase
    decreases outcomes.len(),
{
    if outcomes.len() == 0 {
        start
    } else {
        phase_after(phase_through(start, outcomes.drop_last()), outcomes.last())
    }
}

/// A search lowers the scale as long as every probe fits, raises it as long as
/// none does, and bisects from the first probe that came out otherwise.
pub proof fn law_course_of_a_search(outcomes: Seq<bool>)
    ensures
        outcomes.len() == 0 ==> phase_through(Phase::Hint, outcomes) == Phase::Hint,
        outcomes.len() > 0 && (forall|k: int| 0 <= k < outcomes.len() ==> outcomes[k])
            ==> phase_through(Phase::Hint, outcomes) == Phase::Lowering,
        outcomes.len() > 0 && (forall|k: int| 0 <= k < outcomes.len() ==> !outcomes[k])
            ==> phase_through(Phase::Hint, outcomes) == Phase::Raising,
        (exists|k: int| 0 <= k < outcomes.len() && outcomes[k]) && (exists|k: int|
            0 <= k < outcomes.len() && !outcomes[k]) ==> phase_through(Phase::Hint, outcomes)
            == Phase::Bisecting,
    decreases outcomes.len(),
{
    if outcomes.len() > 0 {
        let before = outcomes.drop_last();
        law_course_of_a_search(before);
        assert forall|k: int| 0 <= k < before.len() implies #[trigger] outcomes[k]
            == before[k] by {}
        if before.len() > 0 {
            assert(before[0] == outcomes[0]);
        }
        if (exists|k: int| 0 <= k < outcomes.len() && outcomes[k]) && (exists|k: int|
            0 <= k < outcomes.len() && !outcomes[k]) {
            let a = choose|k: int| 0 <= k < outcomes.len() && outcomes[k];
            let b = choose|k: int| 0 <= k < outcomes.len() && !outcomes[k];
            if a < before.len() {
                assert(before[a]);
            }
            if b < before.len() {
                assert(!before[b]);
            }
        }
    }
}

/// A bisection goes on whatever comes out, and ends where it has no room; a
/// search that lowers or raises without room bisects. What has ended stays
/// so, and the first probe needs no room.
pub proof fn law_end_of_a_search(outcomes: Seq<bool>)
    ensures
        phase_through(Phase::Bisecting, outcomes) == Phase::Bisecting,
        phase_through(Phase::Done, outcomes) == Phase::Done,
        phase_without_room(Phase::Bisecting) == Phase::Done,
        phase_without_room(Phase::Done) == Phase::Done,
        phase_without_room(Phase::Hint) == Phase::Hint,
        phase_without_room(phase_through(Phase::Hint, seq![true])) == Phase::Bisecting,
        phase_without_room(phase_through(Phase::Hint, seq![false])) == Phase::Bisecting,
    decreases outcomes.len(),
{
    law_course_of_a_search(seq![true]);
    law_course_of_a_search(seq![false]);
    if outcomes.len() > 0 {
        law_end_of_a_search(outcomes.drop_last());
    }
}

} // verus!
