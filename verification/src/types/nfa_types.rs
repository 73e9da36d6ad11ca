use vstd::prelude::*;
use crate::types::token_types::{CharClassType, CharSetType};

verus! {

/// A nondeterministic finite automaton stored as a vector of states;
/// transitions refer to states by their index in `states`.
#[derive(Debug, PartialEq)]
pub struct NFA {
    pub states: Vec<State>,
    pub start_state: usize,
    pub end_state: usize,
}

/// A state has one transition, two (a split), or none (the accepting state).
#[derive(Debug, PartialEq)]
pub enum State {
    Single(Transition),
    Split(Transition, Transition),
    Match,
}

/// An edge to another state: on a character, on a condition without consuming
/// input, or not yet connected.
#[derive(Debug, PartialEq)]
pub enum Transition {
    Literal(usize, CharToMatch),
    Epsilon(usize, EpsilonCondition),
    DanglingTransition,
}

/// When an epsilon transition may be taken.
#[derive(Debug, Clone, Copy, PartialEq, Eq, Structural)]
pub enum EpsilonCondition {
    Unconditional,
    StartAnchor,
    EndAnchor,
    WordBoundary,
    NonWordBoundary,
}

/// What a character transition accepts.
#[derive(Debug, PartialEq)]
pub enum CharToMatch {
    Literal(char),
    CharacterClass(CharClassType),
    CharacterSet(CharSetType, Vec<CharClassType>),
    Any,
}

/// The value of a `CharToMatch`, with the members of a set as a sequence.
pub enum MatchView {
    Literal(char),
    CharacterClass(CharClassType),
    CharacterSet(CharSetType, Seq<CharClassType>),
    Any,
}

/// The value of a `Transition`.
pub enum TransitionView {
    Literal(usize, MatchView),
    Epsilon(usize, EpsilonCondition),
    DanglingTransition,
}

/// The value of a `State`.
pub enum StateView {
    Single(TransitionView),
    Split(TransitionView, TransitionView),
    Match,
}

/// The value of an `NFA`.
pub struct NFAView {
    pub states: Seq<StateView>,
    pub start_state: usize,
    pub end_state: usize,
}

impl View for CharToMatch {
    type V = MatchView;

    open spec fn view(&self) -> MatchView {
        match self {
            CharToMatch::Literal(c) => MatchView::Literal(*c),
            CharToMatch::CharacterClass(c) => MatchView::CharacterClass(*c),
            CharToMatch::CharacterSet(t, v) => MatchView::CharacterSet(*t, v@),
            CharToMatch::Any => MatchView::Any,
        }
    }
}

impl View for Transition {
    type V = TransitionView;

    open spec fn view(&self) -> TransitionView {
        match self {
            Transition::Literal(n, m) => TransitionView::Literal(*n, m@),
            Transition::Epsilon(n, c) => TransitionView::Epsilon(*n, *c),
            Transition::DanglingTransition => TransitionView::DanglingTransition,
        }
    }
}

impl View for State {
    type V = StateView;

    open spec fn view(&self) -> StateView {
        match self {
            State::Single(t) => StateView::Single(t@),
            State::Split(a, b) => StateView::Split(a@, b@),
            State::Match => StateView::Match,
        }
    }
}

impl View for NFA {
    type V = NFAView;

    open spec fn view(&self) -> NFAView {
        NFAView {
            states: self.states@.map_values(|s: State| s@),
            start_state: self.start_state,
            end_state: self.end_state,
        }
    }
}

impl TransitionView {
    /// The state this transition leads to, if it is connected.
    pub open spec fn target(self) -> Option<usize> {
        match self {
            TransitionView::Literal(n, _) => Some(n),
            TransitionView::Epsilon(n, _) => Some(n),
            TransitionView::DanglingTransition => None,
        }
    }

    /// The transition with its target replaced; a dangling one is unchanged.
    pub open spec fn retarget(self, next: usize) -> TransitionView {
        match self {
            TransitionView::Literal(_, m) => TransitionView::Literal(next, m),
            TransitionView::Epsilon(_, c) => TransitionView::Epsilon(next, c),
            TransitionView::DanglingTransition => TransitionView::DanglingTransition,
        }
    }
}

impl StateView {
    /// Whether no transition of this state is dangling.
    pub open spec fn connected(self) -> bool {
        match self {
            StateView::Single(t) => t.target() is Some,
            StateView::Split(a, b) => a.target() is Some && b.target() is Some,
            StateView::Match => true,
        }
    }
}

/// Every transition of `nfa` leads to one of its states, and so does its start.
pub open spec fn nfa_wf(nfa: NFAView) -> bool {
    &&& nfa.start_state < nfa.states.len()
    &&& forall|q: int| 0 <= q < nfa.states.len() ==> #[trigger] targets_below(nfa.states[q], nfa.states.len())
}

/// Every target of the state `st` is below `n`.
pub open spec fn targets_below(st: StateView, n: nat) -> bool {
    match st {
        StateView::Single(t) => t.target() matches Some(x) ==> x < n,
        StateView::Split(a, b) => (a.target() matches Some(x) ==> x < n) && (b.target() matches Some(y) ==> y < n),
        StateView::Match => true,
    }
}


impl Clone for CharToMatch {
    fn clone(&self) -> (res: Self)
        ensures
            res@ == self@,
    {
        match self {
            CharToMatch::Literal(c) => CharToMatch::Literal(*c),
            CharToMatch::CharacterClass(c) => CharToMatch::CharacterClass(*c),
            CharToMatch::CharacterSet(t, v) => {
                let w = v.clone();
                assert(w@ =~= v@);
                CharToMatch::CharacterSet(*t, w)
            },
            CharToMatch::Any => CharToMatch::Any,
        }
    }
}

impl Clone for Transition {
    fn clone(&self) -> (res: Self)
        ensures
            res@ == self@,
    {
        match self {
            Transition::Literal(n, m) => Transition::Literal(*n, m.clone()),
            Transition::Epsilon(n, c) => Transition::Epsilon(*n, *c),
            Transition::DanglingTransition => Transition::DanglingTransition,
        }
    }
}

impl Clone for State {
    fn clone(&self) -> (res: Self)
        ensures
            res@ == self@,
    {
        match self {
            State::Single(t) => State::Single(t.clone()),
            State::Split(a, b) => State::Split(a.clone(), b.clone()),
            State::Match => State::Match,
        }
    }
}

impl Clone for NFA {
    fn clone(&self) -> (res: Self)
        ensures
            res@ == self@,
    {
        let mut states: Vec<State> = Vec::new();
        let mut i: usize = 0;
        while i < self.states.len()
            invariant
                i <= self.states@.len(),
                states@.len() == i,
                forall|k: int| 0 <= k < i ==> #[trigger] states@[k]@ == self.states@[k]@,
            decreases self.states@.len() - i,
        {
            states.push(self.states[i].clone());
            i = i + 1;
        }
        let res = NFA { states, start_state: self.start_state, end_state: self.end_state };
        assert(res@.states =~= self@.states);
        res
    }
}

impl State {
    /// The kind of the state as a word: "literal", "split" or "match".
    pub fn state_type(&self) -> (res: &str)
        ensures
            res@ == (match self@ {
                StateView::Single(_) => "literal"@,
                StateView::Split(_, _) => "split"@,
                StateView::Match => "match"@,
            }),
    {
        match self {
            State::Single(_) => "literal",
            State::Split(_, _) => "split",
            State::Match => "match",
        }
    }

    /// The targets of the state's transitions: the first, and the second of a split.
    pub fn transition_next(&self) -> (res: Option<(usize, Option<usize>)>)
        requires
            self@.connected(),
        ensures
            res == (match self@ {
                StateView::Single(t) => Some((t.target()->0, None::<usize>)),
                StateView::Split(a, b) => Some((a.target()->0, Some(b.target()->0))),
                StateView::Match => None,
            }),
    {
        if let State::Single(n) = self {
            let next = n.next_state().unwrap();
            return Some((next, None));
        }
        if let State::Split(first, second) = self {
            let first_next = first.next_state().unwrap();
            let second_next = second.next_state().unwrap();
            return Some((first_next, Some(second_next)));
        }
        None
    }

    /// Retargets the only transition of a single state, or the first one of a split.
    pub fn update_first_transition_next(&mut self, next_state: usize)
        ensures
            final(self)@ == (match old(self)@ {
                StateView::Single(t) => StateView::Single(t.retarget(next_state)),
                StateView::Split(a, b) => StateView::Split(a.retarget(next_state), b),
                StateView::Match => StateView::Match,
            }),
    {
        if let State::Single(next) = self {
            next.update_next_state(next_state)
        }
        if let State::Split(first, _) = self {
            first.update_next_state(next_state)
        }
    }

    /// Retargets the second transition of a split; other states are unchanged.
    pub fn update_second_transition_next(&mut self, next_state: usize)
        ensures
            final(self)@ == (match old(self)@ {
                StateView::Split(a, b) => StateView::Split(a, b.retarget(next_state)),
                s => s,
            }),
    {
        if let State::Split(_, second) = self {
            second.update_next_state(next_state)
        }
    }
}

impl Transition {
    /// The target state, or `None` for a dangling transition.
    pub fn next_state(&self) -> (res: Option<usize>)
        ensures
            res == self@.target(),
    {
        if let Transition::Literal(n, _) = self {
            return Some(*n)
        }
        if let Transition::Epsilon(n, _) = self {
            return Some(*n)
        }
        None
    }

    /// What a character transition accepts; `None` for other transitions.
    pub fn next_char(&self) -> (res: Option<CharToMatch>)
        ensures
            match self@ {
                TransitionView::Literal(_, m) => res is Some && res->0@ == m,
                _ => res is None,
            },
    {
        if let Transition::Literal(_, char) = self {
            return Some(char.clone())
        }
        None
    }

    /// The condition of an epsilon transition; `None` for other transitions.
    pub fn next_condition(&self) -> (res: Option<EpsilonCondition>)
        ensures
            res == (match self@ {
                TransitionView::Epsilon(_, c) => Some(c),
                _ => None::<EpsilonCondition>,
            }),
    {
        if let Transition::Epsilon(_, condition) = self {
            return Some(*condition)
        }
        None
    }

    /// Retargets the transition; a dangling transition is left as it is.
    pub fn update_next_state(&mut self, next_state: usize)
        ensures
            final(self)@ == old(self)@.retarget(next_state),
    {
        if let Transition::Literal(n, _) = self {
            *n = next_state
        }
        if let Transition::Epsilon(n, _) = self {
            *n = next_state
        }
    }
}

} // verus!
