//! The feedback states a single letter can receive, and the query symbols
//! that denote sets of them.

use vstd::prelude::*;

verus! {

/// Feedback for one letter of a guess against the solution.
#[derive(Clone, Copy, Debug, PartialEq, Eq, Structural)]
pub enum PatternState {
    /// Correct letter in the correct position.
    Green,
    /// Correct letter in the wrong position.
    Yellow,
    /// Letter not present (respecting multiplicity).
    Grey,
}

/// One position of a query pattern: a concrete feedback state, or a
/// wildcard denoting several of them.
#[derive(Clone, Copy, Debug, PartialEq, Eq, Structural)]
pub enum QueryPatternState {
    /// Exactly this feedback state.
    Base(PatternState),
    /// `Green` or `Yellow`: the letter is somewhere in the solution.
    AnyValid,
    /// Any of the three feedback states.
    Any,
}

/// Which concrete feedback states a query symbol admits.
pub open spec fn state_matches(q: QueryPatternState, p: PatternState) -> bool {
    match q {
        QueryPatternState::Base(s) => p == s,
        QueryPatternState::AnyValid => p == PatternState::Green || p == PatternState::Yellow,
        QueryPatternState::Any => true,
    }
}

/// The admissible feedback states of a query symbol, in the fixed
/// enumeration order used by query expansion.
pub open spec fn possible_states_spec(q: QueryPatternState) -> Seq<PatternState> {
    match q {
        QueryPatternState::Base(s) => seq![s],
        QueryPatternState::AnyValid => seq![PatternState::Green, PatternState::Yellow],
        QueryPatternState::Any => seq![
            PatternState::Green,
            PatternState::Yellow,
            PatternState::Grey,
        ],
    }
}

/// The admissible states enumerate exactly what `state_matches` admits,
/// without repetition.
pub proof fn lemma_possible_states(q: QueryPatternState)
    ensures
        possible_states_spec(q).no_duplicates(),
        forall|p: PatternState| possible_states_spec(q).contains(p) <==> state_matches(q, p),
{
    assert forall|p: PatternState| possible_states_spec(q).contains(p) <==> state_matches(q, p) by {
        if state_matches(q, p) {
            match q {
                QueryPatternState::Base(s) => {
                    assert(possible_states_spec(q)[0] == p);
                },
                QueryPatternState::AnyValid => {
                    if p == PatternState::Green {
                        assert(possible_states_spec(q)[0] == p);
                    } else {
                        assert(possible_states_spec(q)[1] == p);
                    }
                },
                QueryPatternState::Any => {
                    if p == PatternState::Green {
                        assert(possible_states_spec(q)[0] == p);
                    } else if p == PatternState::Yellow {
                        assert(possible_states_spec(q)[1] == p);
                    } else {
                        assert(possible_states_spec(q)[2] == p);
                    }
                },
            }
        }
    }
}

impl QueryPatternState {
    /// The concrete feedback states this query symbol admits.
    pub fn possible_states(&self) -> (r: Vec<PatternState>)
        ensures
            r@ == possible_states_spec(*self),
    {
        match self {
            QueryPatternState::Base(state) => {
                let r = vec![*state];
                assert(r@ =~= possible_states_spec(*self));
                r
            },
            QueryPatternState::AnyValid => {
                let r = vec![PatternState::Green, PatternState::Yellow];
                assert(r@ =~= possible_states_spec(*self));
                r
            },
            QueryPatternState::Any => {
                let r = vec![PatternState::Green, PatternState::Yellow, PatternState::Grey];
                assert(r@ =~= possible_states_spec(*self));
                r
            },
        }
    }
}

} // verus!
