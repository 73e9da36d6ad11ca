//! Builds an NFA from a syntax tree. The NFA is a cyclic directed graph stored
//! in a vector: a state refers to another by its index in the vector.
//!
//! Each builder function works on a sub-NFA, a pair `(start, end)` of the
//! indices of its first and last state, and returns the pair of the sub-NFA
//! it built. The last state of a sub-NFA is left dangling until the next
//! construction connects it.
use vstd::prelude::*;
use std::collections::HashMap;
use crate::types::ast_types::{NodeAST, NodeView, QuantifierType};
use crate::types::nfa_types::{
    nfa_wf, targets_below, CharToMatch, EpsilonCondition, MatchView, NFAView, State, StateView, Transition, TransitionView, NFA,
};

verus! {

/// A sub-NFA: the indices of its first and of its last state.
pub type Frag = (usize, usize);

/// The value of a vector of states.
pub open spec fn states_view(v: Seq<State>) -> Seq<StateView> {
    v.map_values(|s: State| s@)
}

/// An unconditional epsilon transition to `n`.
pub open spec fn eps(n: usize) -> TransitionView {
    TransitionView::Epsilon(n, EpsilonCondition::Unconditional)
}

/// A state whose transition is not connected yet.
pub open spec fn dangling() -> StateView {
    StateView::Single(TransitionView::DanglingTransition)
}

/// `st` with state `i` replaced by `s`, or a panic if `i` is out of bounds.
pub open spec fn set_state(st: Seq<StateView>, i: usize, s: StateView) -> Option<Seq<StateView>> {
    if i < st.len() {
        Some(st.update(i as int, s))
    } else {
        None
    }
}

/// A sub-NFA of two states whose transition is `t(end)`.
pub open spec fn sp_two_states(st: Seq<StateView>, first: StateView) -> (Seq<StateView>, Frag) {
    (st.push(first).push(dangling()), (st.len() as usize, (st.len() + 1) as usize))
}

/// The sub-NFA that reads one character accepted by `m`.
pub open spec fn sp_simple(st: Seq<StateView>, m: MatchView) -> (Seq<StateView>, Frag) {
    sp_two_states(st, StateView::Single(TransitionView::Literal((st.len() + 1) as usize, m)))
}

/// The sub-NFA that reads nothing and passes when `c` holds.
pub open spec fn sp_special(st: Seq<StateView>, c: EpsilonCondition) -> (Seq<StateView>, Frag) {
    sp_two_states(st, StateView::Single(TransitionView::Epsilon((st.len() + 1) as usize, c)))
}

/// `^` before the sub-NFA `f`.
pub open spec fn sp_start_anchor(st: Seq<StateView>, f: Frag) -> (Seq<StateView>, Frag) {
    (
        st.push(StateView::Single(TransitionView::Epsilon(f.0, EpsilonCondition::StartAnchor))),
        (st.len() as usize, f.1),
    )
}

/// `$` after the sub-NFA `f`.
pub open spec fn sp_end_anchor(st: Seq<StateView>, f: Frag) -> Option<(Seq<StateView>, Frag)> {
    let e = st.len() as usize;
    match set_state(
        st.push(dangling()),
        f.1,
        StateView::Single(TransitionView::Epsilon(e, EpsilonCondition::EndAnchor)),
    ) {
        Some(st1) => Some((st1, (f.0, e))),
        None => None,
    }
}

/// `f*`.
pub open spec fn sp_zero_or_more(st: Seq<StateView>, f: Frag) -> Option<(Seq<StateView>, Frag)> {
    let e = (st.len() + 1) as usize;
    let (st1, g) = sp_two_states(st, StateView::Split(eps(f.0), eps(e)));
    match set_state(st1, f.1, StateView::Split(eps(f.0), eps(e))) {
        Some(st2) => Some((st2, g)),
        None => None,
    }
}

/// `f+`.
pub open spec fn sp_one_or_more(st: Seq<StateView>, f: Frag) -> Option<(Seq<StateView>, Frag)> {
    let e = (st.len() + 1) as usize;
    let (st1, g) = sp_two_states(st, StateView::Single(eps(f.0)));
    match set_state(st1, f.1, StateView::Split(eps(f.0), eps(e))) {
        Some(st2) => Some((st2, g)),
        None => None,
    }
}

/// `f?`.
pub open spec fn sp_zero_or_one(st: Seq<StateView>, f: Frag) -> Option<(Seq<StateView>, Frag)> {
    let e = (st.len() + 1) as usize;
    let (st1, g) = sp_two_states(st, StateView::Split(eps(f.0), eps(f.1)));
    match set_state(st1, f.1, StateView::Single(eps(e))) {
        Some(st2) => Some((st2, g)),
        None => None,
    }
}

/// `a|b`.
pub open spec fn sp_alternate(st: Seq<StateView>, a: Frag, b: Frag) -> Option<(Seq<StateView>, Frag)> {
    let e = (st.len() + 1) as usize;
    let (st1, g) = sp_two_states(st, StateView::Split(eps(a.0), eps(b.0)));
    match set_state(st1, a.1, StateView::Single(eps(e))) {
        Some(st2) => match set_state(st2, b.1, StateView::Single(eps(e))) {
            Some(st3) => Some((st3, g)),
            None => None,
        },
        None => None,
    }
}

/// `ab`.
pub open spec fn sp_concat(st: Seq<StateView>, a: Frag, b: Frag) -> Option<(Seq<StateView>, Frag)> {
    match set_state(st, a.1, StateView::Single(eps(b.0))) {
        Some(st1) => Some((st1, (a.0, b.1))),
        None => None,
    }
}

/// The depth-first copy of the states reachable from `s`, stopping at `last`:
/// each state not yet in `m` is appended unchanged, and `m` records where.
/// `fuel` bounds the depth of the search.
pub open spec fn dfs(st: Seq<StateView>, m: Map<usize, usize>, s: usize, last: usize, fuel: nat) -> Option<
    (Seq<StateView>, Map<usize, usize>),
>
    decreases fuel,
{
    if m.contains_key(s) {
        Some((st, m))
    } else if fuel == 0 || s >= st.len() {
        None
    } else {
        let st1 = st.push(st[s as int]);
        let m1 = m.insert(s, st.len() as usize);
        if s == last {
            Some((st1, m1))
        } else {
            match st[s as int] {
                StateView::Single(t) => match t.target() {
                    None => Some((st1, m1)),
                    Some(x) => dfs(st1, m1, x, last, (fuel - 1) as nat),
                },
                StateView::Split(a, b) => match (a.target(), b.target()) {
                    (Some(x), Some(y)) => match dfs(st1, m1, x, last, (fuel - 1) as nat) {
                        Some((st2, m2)) => dfs(st2, m2, y, last, (fuel - 1) as nat),
                        None => None,
                    },
                    _ => None,
                },
                StateView::Match => Some((st1, m1)),
            }
        }
    }
}

/// A copied state with its targets moved by `m`: a single transition whose
/// target is not in `m` keeps it; a split needs both targets in `m`.
pub open spec fn remap_state(s: StateView, m: Map<usize, usize>) -> Option<StateView> {
    match s {
        StateView::Single(t) => match t.target() {
            Some(x) => if m.contains_key(x) {
                Some(StateView::Single(t.retarget(m[x])))
            } else {
                Some(s)
            },
            None => Some(s),
        },
        StateView::Split(a, b) => match (a.target(), b.target()) {
            (Some(x), Some(y)) => if m.contains_key(x) && m.contains_key(y) {
                Some(StateView::Split(a.retarget(m[x]), b.retarget(m[y])))
            } else {
                None
            },
            _ => None,
        },
        StateView::Match => Some(s),
    }
}

/// The states of `st` from `from` on, with their targets moved by `m`.
pub open spec fn remap(st: Seq<StateView>, m: Map<usize, usize>, from: int) -> Option<Seq<StateView>>
    decreases st.len() - from,
{
    if from < 0 || from >= st.len() {
        Some(st)
    } else {
        match remap_state(st[from], m) {
            Some(s) => remap(st.update(from, s), m, from + 1),
            None => None,
        }
    }
}

/// The depth-first copy only appends states.
pub proof fn lemma_dfs_grows(st: Seq<StateView>, m: Map<usize, usize>, s: usize, last: usize, fuel: nat)
    ensures
        dfs(st, m, s, last, fuel) matches Some((st1, _)) ==> st1.len() >= st.len()
            && st1.subrange(0, st.len() as int) == st,
    decreases fuel,
{
    if !m.contains_key(s) && fuel > 0 && s < st.len() {
        let st1 = st.push(st[s as int]);
        let m1 = m.insert(s, st.len() as usize);
        assert(st1.subrange(0, st.len() as int) =~= st);
        if s != last {
            match st[s as int] {
                StateView::Single(t) => if let Some(x) = t.target() {
                    lemma_dfs_grows(st1, m1, x, last, (fuel - 1) as nat);
                    if let Some((st2, _)) = dfs(st1, m1, x, last, (fuel - 1) as nat) {
                        assert(st2.subrange(0, st.len() as int) =~= st1.subrange(0, st1.len() as int).subrange(0, st.len() as int));
                    }
                },
                StateView::Split(a, b) => if let (Some(x), Some(y)) = (a.target(), b.target()) {
                    lemma_dfs_grows(st1, m1, x, last, (fuel - 1) as nat);
                    if let Some((st2, m2)) = dfs(st1, m1, x, last, (fuel - 1) as nat) {
                        lemma_dfs_grows(st2, m2, y, last, (fuel - 1) as nat);
                        if let Some((st3, _)) = dfs(st2, m2, y, last, (fuel - 1) as nat) {
                            assert(st2.subrange(0, st.len() as int) =~= st2.subrange(0, st1.len() as int).subrange(0, st.len() as int));
                            assert(st3.subrange(0, st.len() as int) =~= st3.subrange(0, st2.len() as int).subrange(0, st.len() as int));
                        }
                    }
                },
                StateView::Match => {},
            }
        }
    }
}

/// A fresh copy of the sub-NFA `f`, appended to `st`.
pub open spec fn sp_copy(st: Seq<StateView>, f: Frag) -> Option<(Seq<StateView>, Frag)> {
    match dfs(st, Map::empty(), f.0, f.1, st.len() as nat) {
        Some((st1, m)) => match remap(st1, m, st.len() as int) {
            Some(st2) => if m.contains_key(f.1) {
                Some((st2, (st.len() as usize, m[f.1])))
            } else {
                None
            },
            None => None,
        },
        None => None,
    }
}

/// `acc` followed by `k` copies of `f`.
pub open spec fn sp_repeat(st: Seq<StateView>, f: Frag, acc: Frag, k: nat) -> Option<(Seq<StateView>, Frag)>
    decreases k,
{
    if k == 0 {
        Some((st, acc))
    } else {
        match sp_copy(st, f) {
            Some((st1, c)) => match sp_concat(st1, acc, c) {
                Some((st2, acc2)) => sp_repeat(st2, f, acc2, (k - 1) as nat),
                None => None,
            },
            None => None,
        }
    }
}

/// `acc` followed by `k` optional copies of `f`.
pub open spec fn sp_repeat_optional(st: Seq<StateView>, f: Frag, acc: Frag, k: nat) -> Option<
    (Seq<StateView>, Frag),
>
    decreases k,
{
    if k == 0 {
        Some((st, acc))
    } else {
        match sp_copy(st, f) {
            Some((st1, c)) => match sp_zero_or_one(st1, c) {
                Some((st2, c2)) => match sp_concat(st2, acc, c2) {
                    Some((st3, acc3)) => sp_repeat_optional(st3, f, acc3, (k - 1) as nat),
                    None => None,
                },
                None => None,
            },
            None => None,
        }
    }
}

/// `f{m,n}`, `f{m}` and `f{m,}` (`n` is `None`).
pub open spec fn sp_repetition(st: Seq<StateView>, f: Frag, m: usize, n: Option<usize>) -> Option<
    (Seq<StateView>, Frag),
> {
    if m == 0 && n == Some(0usize) {
        Some(sp_special(st, EpsilonCondition::Unconditional))
    } else {
        let pre = if m == 0 {
            Some((st, f))
        } else {
            sp_repeat(st, f, f, (m - 1) as nat)
        };
        match pre {
            None => None,
            Some((st1, mf)) => match n {
                Some(n) => if m == n {
                    Some((st1, mf))
                } else if n < m {
                    None
                } else {
                    match sp_copy(st1, f) {
                        Some((st2, c)) => match sp_zero_or_one(st2, c) {
                            Some((st3, c2)) => match sp_repeat_optional(st3, f, c2, (n - m - 1) as nat) {
                                Some((st4, nf)) => sp_concat(st4, mf, nf),
                                None => None,
                            },
                            None => None,
                        },
                        None => None,
                    }
                },
                None => match sp_copy(st1, f) {
                    Some((st2, c)) => match sp_zero_or_more(st2, c) {
                        Some((st3, last)) => sp_concat(st3, last, mf),
                        None => None,
                    },
                    None => None,
                },
            },
        }
    }
}

/// The sub-NFA of `ast`, built after the states `st`; `None` where building panics.
pub open spec fn sp_walk(st: Seq<StateView>, ast: NodeView) -> Option<(Seq<StateView>, Frag)>
    decreases ast,
{
    match ast {
        NodeView::Literal(c) => Some(sp_simple(st, MatchView::Literal(c))),
        NodeView::CharacterClass(c) => Some(sp_simple(st, MatchView::CharacterClass(c))),
        NodeView::CharacterSet(negated, sets) => Some(
            sp_simple(st, MatchView::CharacterSet(negated, sets)),
        ),
        NodeView::Any => Some(sp_simple(st, MatchView::Any)),
        NodeView::AnchorStart(next) => match sp_walk(st, *next) {
            Some((st1, f)) => Some(sp_start_anchor(st1, f)),
            None => None,
        },
        NodeView::AnchorEnd(next) => match sp_walk(st, *next) {
            Some((st1, f)) => sp_end_anchor(st1, f),
            None => None,
        },
        NodeView::Group(next) => sp_walk(st, *next),
        NodeView::Quantifier(next, q) => match sp_walk(st, *next) {
            Some((st1, f)) => match q {
                QuantifierType::ZeroOrMore => sp_zero_or_more(st1, f),
                QuantifierType::OneOrMore => sp_one_or_more(st1, f),
                QuantifierType::ZeroOrOne => sp_zero_or_one(st1, f),
                QuantifierType::Repetition(m, n) => sp_repetition(st1, f, m, n),
            },
            None => None,
        },
        NodeView::Concatenation(a, b) => match sp_walk(st, *a) {
            Some((st1, fa)) => match sp_walk(st1, *b) {
                Some((st2, fb)) => sp_concat(st2, fa, fb),
                None => None,
            },
            None => None,
        },
        NodeView::Alternation(a, b) => match sp_walk(st, *a) {
            Some((st1, fa)) => match sp_walk(st1, *b) {
                Some((st2, fb)) => sp_alternate(st2, fa, fb),
                None => None,
            },
            None => None,
        },
        NodeView::WordBoundary => Some(sp_special(st, EpsilonCondition::WordBoundary)),
        NodeView::NonWordBoundary => Some(sp_special(st, EpsilonCondition::NonWordBoundary)),
    }
}

/// The NFA of `ast` built after the states `st`: its last state accepts.
pub open spec fn sp_compile(st: Seq<StateView>, ast: NodeView) -> Option<NFAView> {
    match sp_walk(st, ast) {
        Some((st1, f)) => match set_state(st1, f.1, StateView::Match) {
            Some(st2) => Some(NFAView { states: st2, start_state: f.0, end_state: f.1 }),
            None => None,
        },
        None => None,
    }
}

/// Builds NFAs; it keeps the states of all it has built.
pub struct BuilderNFA {
    nfa_vec: Vec<State>,
}

impl View for BuilderNFA {
    type V = Seq<StateView>;

    closed spec fn view(&self) -> Seq<StateView> {
        states_view(self.nfa_vec@)
    }
}

impl BuilderNFA {
    /// A builder with no states.
    pub fn new() -> (b: BuilderNFA)
        ensures
            b@ == Seq::<StateView>::empty(),
    {
        let b = BuilderNFA { nfa_vec: Vec::new() };
        assert(b@ =~= Seq::<StateView>::empty());
        b
    }

    /// The NFA of `ast`, built after the states this builder already holds.
    /// A repetition `{m,n}` with `n < m` has no automaton; building one panics.
    pub fn compile(&mut self, ast: &NodeAST) -> (res: Result<NFA, String>)
        requires
            repetitions_ordered(ast@),
            old(self)@.len() + walk_bound(ast@) <= usize::MAX,
        ensures
            sp_compile(old(self)@, ast@) is Some,
            res is Ok,
            res matches Ok(nfa) ==> nfa@ == sp_compile(old(self)@, ast@)->0,
            res matches Ok(nfa) ==> (old(self)@.len() == 0 ==> nfa_wf(nfa@)),
            final(self)@ == sp_compile(old(self)@, ast@)->0.states,
    {
        proof {
            lemma_walk_good(self@, ast@);
        }
        let (start, end) = match self.walk_tree(ast) {
            Ok(res) => res,
            Err(e) => {
                let mut msg = String::from_str("Error walking tree: ");
                msg.append(e.as_str());
                return Err(msg);
            },
        };
        self.set(end, State::Match);
        let states = self.states_copy();
        let nfa = NFA { states, start_state: start, end_state: end };
        assert(nfa@.states =~= self@);
        proof {
            if old(self)@.len() == 0 {
                assert(old(self)@ =~= Seq::<StateView>::empty());
                lemma_compile_succeeds(ast@);
            }
        }
        Ok(nfa)
    }

    /// A copy of the states.
    fn states_copy(&self) -> (res: Vec<State>)
        ensures
            states_view(res@) == self@,
            res@.len() <= usize::MAX,
    {
        let mut states: Vec<State> = Vec::new();
        let mut i: usize = 0;
        while i < self.nfa_vec.len()
            invariant
                i <= self.nfa_vec@.len(),
                states@.len() == i,
                forall|k: int| 0 <= k < i ==> #[trigger] states@[k]@ == self.nfa_vec@[k]@,
            decreases self.nfa_vec@.len() - i,
        {
            states.push(self.nfa_vec[i].clone());
            i = i + 1;
        }
        assert(states_view(states@) =~= self@);
        states
    }

    /// Replaces state `i`.
    fn set(&mut self, i: usize, s: State)
        requires
            i < old(self)@.len(),
        ensures
            final(self)@ == old(self)@.update(i as int, s@),
    {
        self.nfa_vec[i] = s;
        assert(self@ =~= old(self)@.update(i as int, s@));
    }

    /// Appends a state and returns its index.
    fn push(&mut self, s: State) -> (i: usize)
        ensures
            final(self)@ == old(self)@.push(s@),
            i == old(self)@.len(),
    {
        let i = self.nfa_vec.len();
        self.nfa_vec.push(s);
        assert(self@ =~= old(self)@.push(s@));
        i
    }

    /// The number of states.
    fn len(&self) -> (n: usize)
        ensures
            n == self@.len(),
    {
        self.nfa_vec.len()
    }

    /// Appends `first` and a dangling state; returns their indices.
    fn push_two(&mut self, first: State) -> (res: Frag)
        requires
            first@ == (match first@ {
                StateView::Single(TransitionView::Literal(n, m)) => StateView::Single(
                    TransitionView::Literal((old(self)@.len() + 1) as usize, m),
                ),
                s => s,
            }),
        ensures
            (final(self)@, res) == sp_two_states(old(self)@, first@),
    {
        let state_index = self.push(first);
        let end_state_index = self.push(State::Single(Transition::DanglingTransition));
        (state_index, end_state_index)
    }

    fn walk_tree(&mut self, ast: &NodeAST) -> (res: Result<Frag, String>)
        requires
            sp_walk(old(self)@, ast@) is Some,
        ensures
            res matches Ok(f) && (final(self)@, f) == sp_walk(old(self)@, ast@)->0,
        decreases ast,
    {
        match ast {
            NodeAST::Literal(char) => self.build_simple_nfa(CharToMatch::Literal(*char)),
            NodeAST::CharacterClass(char_class_type) => self.build_simple_nfa(
                CharToMatch::CharacterClass(*char_class_type),
            ),
            NodeAST::CharacterSet(negated, character_sets) => {
                let sets = character_sets.clone();
                assert(sets@ =~= character_sets@);
                self.build_simple_nfa(CharToMatch::CharacterSet(*negated, sets))
            },
            NodeAST::Any => self.build_simple_nfa(CharToMatch::Any),
            NodeAST::AnchorStart(next) => {
                let nfa = self.walk_tree(next)?;
                self.start_anchor(nfa)
            },
            NodeAST::AnchorEnd(next) => {
                let nfa = self.walk_tree(next)?;
                self.end_anchor(nfa)
            },
            NodeAST::Group(next) => {
                let nfa = self.walk_tree(next)?;
                self.group(nfa)
            },
            NodeAST::Quantifier(next, quantifier) => {
                let nfa = self.walk_tree(next)?;
                match quantifier {
                    QuantifierType::ZeroOrMore => self.zero_or_more_nfa(nfa),
                    QuantifierType::OneOrMore => self.one_or_more_nfa(nfa),
                    QuantifierType::ZeroOrOne => self.zero_or_one_nfa(nfa),
                    QuantifierType::Repetition(m, n) => self.repetition_nfa(nfa, *m, *n),
                }
            },
            NodeAST::Concatenation(next_a, next_b) => {
                let state_a = self.walk_tree(next_a)?;
                let state_b = self.walk_tree(next_b)?;
                self.concat_nfa(state_a, state_b)
            },
            NodeAST::Alternation(next_a, next_b) => {
                let nfa_a = self.walk_tree(next_a)?;
                let nfa_b = self.walk_tree(next_b)?;
                self.alternate_nfa(nfa_a, nfa_b)
            },
            NodeAST::WordBoundary => self.build_special_nfa(EpsilonCondition::WordBoundary),
            NodeAST::NonWordBoundary => self.build_special_nfa(EpsilonCondition::NonWordBoundary),
        }
    }

    fn start_anchor(&mut self, nfa: Frag) -> (res: Result<Frag, String>)
        ensures
            res matches Ok(f) && (final(self)@, f) == sp_start_anchor(old(self)@, nfa),
    {
        let state_idx = self.push(
            State::Single(Transition::Epsilon(nfa.0, EpsilonCondition::StartAnchor)),
        );
        Ok((state_idx, nfa.1))
    }

    fn end_anchor(&mut self, nfa: Frag) -> (res: Result<Frag, String>)
        requires
            sp_end_anchor(old(self)@, nfa) is Some,
        ensures
            res matches Ok(f) && (final(self)@, f) == sp_end_anchor(old(self)@, nfa)->0,
    {
        let state_idx = self.push(State::Single(Transition::DanglingTransition));
        self.set(nfa.1, State::Single(Transition::Epsilon(state_idx, EpsilonCondition::EndAnchor)));
        Ok((nfa.0, state_idx))
    }

    fn group(&mut self, nfa: Frag) -> (res: Result<Frag, String>)
        ensures
            res == Ok::<Frag, String>(nfa),
            final(self)@ == old(self)@,
    {
        Ok(nfa)
    }

    fn zero_or_more_nfa(&mut self, nfa: Frag) -> (res: Result<Frag, String>)
        requires
            sp_zero_or_more(old(self)@, nfa) is Some,
        ensures
            res matches Ok(f) && (final(self)@, f) == sp_zero_or_more(old(self)@, nfa)->0,
    {
        let begin_state_index = self.push(State::Match);
        let end_state_index = self.push(State::Single(Transition::DanglingTransition));
        // BEGIN state
        self.set(
            begin_state_index,
            State::Split(
                Transition::Epsilon(nfa.0, EpsilonCondition::Unconditional),
                Transition::Epsilon(end_state_index, EpsilonCondition::Unconditional),
            ),
        );
        self.set(
            nfa.1,
            State::Split(
                Transition::Epsilon(nfa.0, EpsilonCondition::Unconditional),
                Transition::Epsilon(end_state_index, EpsilonCondition::Unconditional),
            ),
        );
        Ok((begin_state_index, end_state_index))
    }

    fn one_or_more_nfa(&mut self, nfa: Frag) -> (res: Result<Frag, String>)
        requires
            sp_one_or_more(old(self)@, nfa) is Some,
        ensures
            res matches Ok(f) && (final(self)@, f) == sp_one_or_more(old(self)@, nfa)->0,
    {
        let begin_state_index = self.push(
            State::Single(Transition::Epsilon(nfa.0, EpsilonCondition::Unconditional)),
        );
        let end_state_index = self.push(State::Single(Transition::DanglingTransition));
        self.set(
            nfa.1,
            State::Split(
                Transition::Epsilon(nfa.0, EpsilonCondition::Unconditional),
                Transition::Epsilon(end_state_index, EpsilonCondition::Unconditional),
            ),
        );
        Ok((begin_state_index, end_state_index))
    }

    fn zero_or_one_nfa(&mut self, nfa: Frag) -> (res: Result<Frag, String>)
        requires
            sp_zero_or_one(old(self)@, nfa) is Some,
        ensures
            res matches Ok(f) && (final(self)@, f) == sp_zero_or_one(old(self)@, nfa)->0,
    {
        let nfa_start_state_index = self.push(
            State::Split(
                Transition::Epsilon(nfa.0, EpsilonCondition::Unconditional),
                Transition::Epsilon(nfa.1, EpsilonCondition::Unconditional),
            ),
        );
        let nfa_end_state_index = self.push(State::Single(Transition::DanglingTransition));
        self.set(
            nfa.1,
            State::Single(Transition::Epsilon(nfa_end_state_index, EpsilonCondition::Unconditional)),
        );
        Ok((nfa_start_state_index, nfa_end_state_index))
    }

    fn alternate_nfa(&mut self, nfa_a: Frag, nfa_b: Frag) -> (res: Result<Frag, String>)
        requires
            sp_alternate(old(self)@, nfa_a, nfa_b) is Some,
        ensures
            res matches Ok(f) && (final(self)@, f) == sp_alternate(old(self)@, nfa_a, nfa_b)->0,
    {
        let nfa_start_state_idx = self.push(
            State::Split(
                Transition::Epsilon(nfa_a.0, EpsilonCondition::Unconditional),
                Transition::Epsilon(nfa_b.0, EpsilonCondition::Unconditional),
            ),
        );
        let nfa_end_state_index = self.push(State::Single(Transition::DanglingTransition));
        self.set(
            nfa_a.1,
            State::Single(Transition::Epsilon(nfa_end_state_index, EpsilonCondition::Unconditional)),
        );
        self.set(
            nfa_b.1,
            State::Single(Transition::Epsilon(nfa_end_state_index, EpsilonCondition::Unconditional)),
        );
        Ok((nfa_start_state_idx, nfa_end_state_index))
    }

    fn concat_nfa(&mut self, nfa_a: Frag, nfa_b: Frag) -> (res: Result<Frag, String>)
        requires
            sp_concat(old(self)@, nfa_a, nfa_b) is Some,
        ensures
            res matches Ok(f) && (final(self)@, f) == sp_concat(old(self)@, nfa_a, nfa_b)->0,
    {
        self.set(nfa_a.1, State::Single(Transition::Epsilon(nfa_b.0, EpsilonCondition::Unconditional)));
        Ok((nfa_a.0, nfa_b.1))
    }

    fn build_simple_nfa(&mut self, c: CharToMatch) -> (res: Result<Frag, String>)
        ensures
            res matches Ok(f) && (final(self)@, f) == sp_simple(old(self)@, c@),
    {
        let state_index = self.push(State::Single(Transition::DanglingTransition));
        let end_state_index = self.push(State::Single(Transition::DanglingTransition));
        self.set(state_index, State::Single(Transition::Literal(end_state_index, c)));
        assert(self@ =~= sp_simple(old(self)@, c@).0);
        Ok((state_index, end_state_index))
    }

    fn repetition_nfa(&mut self, nfa: Frag, m: usize, n: Option<usize>) -> (res: Result<Frag, String>)
        requires
            sp_repetition(old(self)@, nfa, m, n) is Some,
        ensures
            res matches Ok(f) && (final(self)@, f) == sp_repetition(old(self)@, nfa, m, n)->0,
    {
        // `{m,n}` is `m` copies followed by `n - m` optional ones; `{m,}` ends with a star
        let ghost st0 = self@;
        let ghost pre = if m == 0 {
            Some((st0, nfa))
        } else {
            sp_repeat(st0, nfa, nfa, (m - 1) as nat)
        };
        let mut m_nfa = nfa;
        if m == 0 {
            if let Some(n) = n {
                if n == 0 {
                    return self.build_special_nfa(EpsilonCondition::Unconditional);
                }
            }
        } else {
            let mut k: usize = 0;
            while k < m - 1
                invariant
                    m >= 1,
                    k <= m - 1,
                    pre == sp_repeat(st0, nfa, nfa, (m - 1) as nat),
                    pre == sp_repeat(self@, nfa, m_nfa, (m - 1 - k) as nat),
                    pre is Some,
                decreases m - 1 - k,
            {
                let new_nfa = self.copy_nfa(nfa)?;
                m_nfa = self.concat_nfa(m_nfa, new_nfa)?;
                k = k + 1;
            }
        }
        assert(pre == Some((self@, m_nfa)));
        match n {
            Some(n) => {
                if m == n {
                    return Ok(m_nfa);
                }
                let n_remaining: usize = n - m;
                let mut n_nfa = self.copy_nfa(nfa)?;
                n_nfa = self.zero_or_one_nfa(n_nfa)?;
                let ghost st3 = self@;
                let ghost c2 = n_nfa;
                let mut k: usize = 0;
                while k < n_remaining - 1
                    invariant
                        n_remaining >= 1,
                        k <= n_remaining - 1,
                        sp_repeat_optional(st3, nfa, c2, (n_remaining - 1) as nat)
                            == sp_repeat_optional(self@, nfa, n_nfa, (n_remaining - 1 - k) as nat),
                        sp_repeat_optional(self@, nfa, n_nfa, (n_remaining - 1 - k) as nat) is Some,
                    decreases n_remaining - 1 - k,
                {
                    let mut new_nfa = self.copy_nfa(nfa)?;
                    new_nfa = self.zero_or_one_nfa(new_nfa)?;
                    n_nfa = self.concat_nfa(n_nfa, new_nfa)?;
                    k = k + 1;
                }
                self.concat_nfa(m_nfa, n_nfa)
            },
            None => {
                let mut last_nfa = self.copy_nfa(nfa)?;
                last_nfa = self.zero_or_more_nfa(last_nfa)?;
                let final_nfa = self.concat_nfa(last_nfa, m_nfa)?;
                Ok(final_nfa)
            },
        }
    }

    /// A fresh copy of the sub-NFA `nfa`, appended after the other states.
    fn copy_nfa(&mut self, nfa: Frag) -> (res: Result<Frag, String>)
        requires
            sp_copy(old(self)@, nfa) is Some,
        ensures
            res matches Ok(f) && (final(self)@, f) == sp_copy(old(self)@, nfa)->0,
    {
        broadcast use vstd::std_specs::hash::group_hash_axioms;

        let copy_start_state_idx = self.len();
        // maps each copied state to its copy
        let mut mappings: HashMap<usize, usize> = HashMap::new();
        let start_state_idx = nfa.0;
        self.deep_copy_dfs(start_state_idx, &mut mappings, nfa.1, Ghost(copy_start_state_idx as nat));
        proof {
            lemma_dfs_grows(old(self)@, Map::empty(), nfa.0, nfa.1, old(self)@.len() as nat);
        }
        let copy_end = self.len();
        let ghost copied = self@;
        let mut i = copy_start_state_idx;
        while i < copy_end
            invariant
                copy_start_state_idx <= i <= copy_end == self@.len(),
                remap(copied, mappings@, copy_start_state_idx as int) == remap(self@, mappings@, i as int),
                remap(self@, mappings@, i as int) is Some,
            decreases copy_end - i,
        {
            let ghost before = self@;
            let new_state = match &self.nfa_vec[i] {
                State::Single(transition) => match transition.next_state() {
                    None => None,
                    Some(current_next_state) => {
                        if mappings.contains_key(&current_next_state) {
                            let mut t = transition.clone();
                            t.update_next_state(*mappings.get(&current_next_state).unwrap());
                            Some(State::Single(t))
                        } else {
                            None
                        }
                    },
                },
                State::Split(transition_1, transition_2) => {
                    let next_next_state_1 = transition_1.next_state().unwrap();
                    let next_next_state_2 = transition_2.next_state().unwrap();
                    let mut t1 = transition_1.clone();
                    let mut t2 = transition_2.clone();
                    t1.update_next_state(*mappings.get(&next_next_state_1).unwrap());
                    t2.update_next_state(*mappings.get(&next_next_state_2).unwrap());
                    Some(State::Split(t1, t2))
                },
                State::Match => None,
            };
            assert(before[i as int] == self.nfa_vec@[i as int]@);
            if let Some(s) = new_state {
                self.set(i, s);
            } else {
                assert(self@ =~= before.update(i as int, before[i as int]));
            }
            assert(remap(before, mappings@, i as int) == remap(self@, mappings@, i + 1));
            i = i + 1;
        }
        Ok((copy_start_state_idx, *mappings.get(&nfa.1).unwrap()))
    }

    /// Copies the states reachable from `state_idx` that are not copied yet,
    /// depth first, without going past `last_state`.
    fn deep_copy_dfs(
        &mut self,
        state_idx: usize,
        mappings: &mut HashMap<usize, usize>,
        last_state: usize,
        Ghost(fuel): Ghost<nat>,
    )
        requires
            dfs(old(self)@, old(mappings)@, state_idx, last_state, fuel) is Some,
        ensures
            (final(self)@, final(mappings)@) == dfs(old(self)@, old(mappings)@, state_idx, last_state, fuel)->0,
        decreases fuel,
    {
        broadcast use vstd::std_specs::hash::group_hash_axioms;

        if mappings.contains_key(&state_idx) {
            return;
        }
        let copy = self.nfa_vec[state_idx].clone();
        let current = self.nfa_vec[state_idx].clone();
        assert(current@ == old(self)@[state_idx as int]);
        let new_state_idx = self.push(copy);
        mappings.insert(state_idx, new_state_idx);
        if last_state == state_idx {
            return;
        }
        match &current {
            State::Single(transition) => {
                if transition.next_state().is_none() {
                    return;
                }
                let next_state_idx = transition.next_state().unwrap();
                self.deep_copy_dfs(next_state_idx, mappings, last_state, Ghost((fuel - 1) as nat));
            },
            State::Split(transition_1, transition_2) => {
                let new_state_idx_1 = transition_1.next_state().unwrap();
                let new_state_idx_2 = transition_2.next_state().unwrap();
                self.deep_copy_dfs(new_state_idx_1, mappings, last_state, Ghost((fuel - 1) as nat));
                self.deep_copy_dfs(new_state_idx_2, mappings, last_state, Ghost((fuel - 1) as nat));
            },
            _ => {
                return;
            },
        }
    }

    fn build_special_nfa(&mut self, epsilon_condition: EpsilonCondition) -> (res: Result<Frag, String>)
        ensures
            res matches Ok(f) && (final(self)@, f) == sp_special(old(self)@, epsilon_condition),
    {
        let state_index = self.push(State::Single(Transition::DanglingTransition));
        let end_state_index = self.push(State::Single(Transition::DanglingTransition));
        self.set(state_index, State::Single(Transition::Epsilon(end_state_index, epsilon_condition)));
        assert(self@ =~= sp_special(old(self)@, epsilon_condition).0);
        Ok((state_index, end_state_index))
    }
}

// ---------------------------------------------------------------------------
// Building never panics: every sub-NFA can be copied, and every state that a
// construction patches exists.
// ---------------------------------------------------------------------------

/// Whether state `s` has a transition to `x`.
pub open spec fn succ(s: StateView, x: usize) -> bool {
    match s {
        StateView::Single(t) => t.target() == Some(x),
        StateView::Split(a, b) => a.target() == Some(x) || b.target() == Some(x),
        StateView::Match => false,
    }
}

/// Whether the transitions of the states `lo..hi` of `st`, but those of
/// `end`, stay in `lo..hi`, and every split there has both its transitions.
pub open spec fn region_closed(st: Seq<StateView>, lo: int, hi: int, end: usize) -> bool {
    &&& forall|i: usize, x: usize| lo <= i < hi && i != end && #[trigger] succ(st[i as int], x) ==> lo <= x < hi
    &&& forall|i: usize| lo <= i < hi && (#[trigger] st[i as int]) is Split ==> st[i as int].connected()
}

/// Whether `s` holds the successors of its states in `lo..hi` other than `end`.
pub open spec fn succ_closed(st: Seq<StateView>, lo: int, hi: int, end: usize, s: Set<usize>) -> bool {
    forall|i: usize, x: usize| s.contains(i) && lo <= i < hi && i != end && #[trigger] succ(st[i as int], x) ==> s.contains(x)
}

/// Whether `b` is reached from `a` through the states `lo..hi`: every set
/// that holds `a` and the successors of its states there but `b` holds `b`.
pub open spec fn reaches(st: Seq<StateView>, lo: int, hi: int, a: usize, b: usize) -> bool {
    forall|s: Set<usize>| #[trigger] succ_closed(st, lo, hi, b, s) && s.contains(a) ==> s.contains(b)
}

/// Whether the sub-NFA `f` lies in the states `lo..hi` of `st`: it ends in a
/// single state, its states keep to the region, and its end is reached from
/// its start.
pub open spec fn frag_good(st: Seq<StateView>, lo: int, hi: int, f: Frag) -> bool {
    &&& 0 <= lo <= f.0 < hi
    &&& lo <= f.1 < hi
    &&& hi <= st.len()
    &&& st[f.1 as int] is Single
    &&& region_closed(st, lo, hi, f.1)
    &&& reaches(st, lo, hi, f.0, f.1)
}

/// Whether `st1` keeps the first `n` states of `st`.
pub open spec fn keeps(st: Seq<StateView>, st1: Seq<StateView>, n: int) -> bool {
    &&& n <= st.len()
    &&& n <= st1.len()
    &&& forall|i: int| 0 <= i < n ==> #[trigger] st1[i] == st[i]
}

/// What the depth-first copy keeps true: `m` maps each copied state, all of
/// the region `lo..hi` of `base`, to its copy, and the copies follow `base`.
pub open spec fn copy_inv(base: Seq<StateView>, st: Seq<StateView>, m: Map<usize, usize>, lo: int, hi: int) -> bool {
    &&& keeps(base, st, base.len() as int)
    &&& m.dom().finite()
    &&& st.len() == base.len() + m.dom().len()
    &&& forall|k: usize| #[trigger] m.contains_key(k) ==> lo <= k < hi && base.len() <= m[k] < st.len()
        && st[m[k] as int] == base[k as int]
    &&& forall|k1: usize, k2: usize| #[trigger] m.contains_key(k1) && #[trigger] m.contains_key(k2) && k1 != k2 ==> m[k1] != m[k2]
    &&& forall|i: int| base.len() <= i < st.len() ==> #[trigger] is_copy(m, i)
}

/// Whether position `i` is the copy of some state in `m`.
pub open spec fn is_copy(m: Map<usize, usize>, i: int) -> bool {
    exists|k: usize| #[trigger] m.contains_key(k) && m[k] == i
}

/// Every state that the copy added to `m` after `m0`, but `last`, has its
/// successors in `m`.
pub open spec fn copy_closed(base: Seq<StateView>, m0: Map<usize, usize>, m: Map<usize, usize>, last: usize) -> bool {
    forall|k: usize, x: usize| #[trigger] m.contains_key(k) && !m0.contains_key(k) && k != last && #[trigger] succ(base[k as int], x)
        ==> m.contains_key(x)
}

proof fn lemma_dom_bound(m: Map<usize, usize>, lo: int, hi: int, s: usize)
    requires
        m.dom().finite(),
        0 <= lo <= s < hi <= usize::MAX,
        forall|k: usize| #[trigger] m.contains_key(k) ==> lo <= k < hi,
        !m.contains_key(s),
    ensures
        m.dom().len() < hi - lo,
{
    let r = Set::<usize>::range(lo as usize, hi as usize);
    assert(m.dom().subset_of(r));
    assert(r.contains(s));
    m.dom().lemma_subset_not_in_lt(r, s);
}

proof fn lemma_dom_size(m: Map<usize, usize>, lo: int, hi: int)
    requires
        m.dom().finite(),
        0 <= lo <= hi <= usize::MAX,
        forall|k: usize| #[trigger] m.contains_key(k) ==> lo <= k < hi,
    ensures
        m.dom().len() <= hi - lo,
{
    let r = Set::<usize>::range(lo as usize, hi as usize);
    assert(m.dom().subset_of(r));
    vstd::set_lib::lemma_len_subset(m.dom(), r);
}

proof fn lemma_dfs_copies(
    base: Seq<StateView>,
    st: Seq<StateView>,
    m: Map<usize, usize>,
    s: usize,
    last: usize,
    fuel: nat,
    lo: int,
    hi: int,
)
    requires
        copy_inv(base, st, m, lo, hi),
        0 <= lo <= s < hi <= base.len(),
        lo <= last < hi,
        region_closed(base, lo, hi, last),
        fuel + m.dom().len() >= hi - lo,
        base.len() + (hi - lo) <= usize::MAX,
    ensures
        dfs(st, m, s, last, fuel) matches Some((st1, m1)) && {
            &&& copy_inv(base, st1, m1, lo, hi)
            &&& keeps(st, st1, st.len() as int)
            &&& m1.contains_key(s)
            &&& (!m.contains_key(s) ==> m1[s] == st.len())
            &&& forall|k: usize| #[trigger] m.contains_key(k) ==> m1.contains_key(k) && m1[k] == m[k]
            &&& copy_closed(base, m, m1, last)
        },
    decreases fuel,
{
    if m.contains_key(s) {
        assert(copy_closed(base, m, m, last));
        assert(keeps(st, st, st.len() as int));
    } else {
        lemma_dom_bound(m, lo, hi, s);
        let st1 = st.push(st[s as int]);
        let m1 = m.insert(s, st.len() as usize);
        assert(st[s as int] == base[s as int]);
        assert(m1.dom() =~= m.dom().insert(s));
        assert(copy_inv(base, st1, m1, lo, hi)) by {
            assert forall|i: int| base.len() <= i < st1.len() implies #[trigger] is_copy(m1, i) by {
                if i < st.len() {
                    assert(is_copy(m, i));
                    let k = choose|k: usize| #[trigger] m.contains_key(k) && m[k] == i;
                    assert(m1.contains_key(k) && m1[k] == i);
                } else {
                    assert(m1.contains_key(s) && m1[s] == i);
                }
            }
        }
        assert(keeps(st, st1, st.len() as int));
        assert(dfs(st, m, s, last, fuel) == (if s == last {
            Some((st1, m1))
        } else {
            match st[s as int] {
                StateView::Single(t) => match t.target() {
                    None => Some((st1, m1)),
                    Some(x) => dfs(st1, m1, x, last, (fuel - 1) as nat),
                },
                StateView::Split(a, b) => match (a.target(), b.target()) {
                    (Some(x), Some(y)) => match dfs(st1, m1, x, last, (fuel - 1) as nat) {
                        Some((st2, m2)) => dfs(st2, m2, y, last, (fuel - 1) as nat),
                        None => None,
                    },
                    _ => None,
                },
                StateView::Match => Some((st1, m1)),
            }
        }));
        if s == last {
            assert(copy_closed(base, m, m1, last));
        } else {
            match base[s as int] {
                StateView::Single(t) => {
                    match t.target() {
                        Some(x) => {
                            assert(succ(base[s as int], x));
                            lemma_dfs_copies(base, st1, m1, x, last, (fuel - 1) as nat, lo, hi);
                            let (st2, m2) = dfs(st1, m1, x, last, (fuel - 1) as nat)->0;
                            assert(m1.contains_key(s));
                            assert(m2.contains_key(s) && m2[s] == m1[s]);
                            assert forall|k: usize| #[trigger] m.contains_key(k) implies m2.contains_key(k) && m2[k] == m[k] by {
                                assert(m1.contains_key(k));
                            }
                            assert(keeps(st, st2, st.len() as int)) by {
                                assert forall|i: int| 0 <= i < st.len() implies #[trigger] st2[i] == st[i] by {
                                    assert(st2[i] == st1[i]);
                                }
                            }
                            assert(copy_closed(base, m, m2, last)) by {
                                assert forall|k: usize, z: usize| #[trigger] m2.contains_key(k) && !m.contains_key(k) && k != last
                                    && #[trigger] succ(base[k as int], z) implies m2.contains_key(z) by {
                                    if k == s {
                                        assert(z == x);
                                    } else {
                                        assert(!m1.contains_key(k));
                                    }
                                }
                            }
                        },
                        None => {
                            assert(copy_closed(base, m, m1, last));
                        },
                    }
                },
                StateView::Split(a, b) => {
                    let x = a.target()->0;
                    let y = b.target()->0;
                    assert(succ(base[s as int], x));
                    assert(succ(base[s as int], y));
                    lemma_dfs_copies(base, st1, m1, x, last, (fuel - 1) as nat, lo, hi);
                    let (st2, m2) = dfs(st1, m1, x, last, (fuel - 1) as nat)->0;
                    lemma_dfs_copies(base, st2, m2, y, last, (fuel - 1) as nat, lo, hi);
                    let (st3, m3) = dfs(st2, m2, y, last, (fuel - 1) as nat)->0;
                    assert(m1.contains_key(s));
                    assert(m2.contains_key(s) && m2[s] == m1[s]);
                    assert(m3.contains_key(s) && m3[s] == m2[s]);
                    assert forall|k: usize| #[trigger] m.contains_key(k) implies m3.contains_key(k) && m3[k] == m[k] by {
                        assert(m1.contains_key(k));
                        assert(m2.contains_key(k));
                    }
                    assert(keeps(st, st3, st.len() as int)) by {
                        assert forall|i: int| 0 <= i < st.len() implies #[trigger] st3[i] == st[i] by {
                            assert(st3[i] == st2[i]);
                            assert(st2[i] == st1[i]);
                        }
                    }
                    assert(copy_closed(base, m, m3, last)) by {
                        assert forall|k: usize, z: usize| #[trigger] m3.contains_key(k) && !m.contains_key(k) && k != last
                            && #[trigger] succ(base[k as int], z) implies m3.contains_key(z) by {
                            if k == s {
                                assert(z == x || z == y);
                            } else if m2.contains_key(k) {
                                assert(!m1.contains_key(k));
                            }
                        }
                    }
                },
                StateView::Match => {
                    assert(copy_closed(base, m, m1, last));
                },
            }
        }
    }
}

proof fn lemma_remap_some(st: Seq<StateView>, m: Map<usize, usize>, from: int)
    requires
        0 <= from,
        forall|i: int| from <= i < st.len() ==> (#[trigger] remap_state(st[i], m)) is Some,
    ensures
        remap(st, m, from) matches Some(st2) && {
            &&& st2.len() == st.len()
            &&& forall|i: int| 0 <= i < from ==> #[trigger] st2[i] == st[i]
            &&& forall|i: int| from <= i < st.len() ==> #[trigger] st2[i] == remap_state(st[i], m)->0
        },
    decreases st.len() - from,
{
    if from < st.len() {
        let x = remap_state(st[from], m)->0;
        let st1 = st.update(from, x);
        assert forall|i: int| from + 1 <= i < st1.len() implies (#[trigger] remap_state(st1[i], m)) is Some by {
            assert(st1[i] == st[i]);
        }
        lemma_remap_some(st1, m, from + 1);
        let st2 = remap(st1, m, from + 1)->0;
        assert forall|i: int| from <= i < st.len() implies #[trigger] st2[i] == remap_state(st[i], m)->0 by {
            if i > from {
                assert(st1[i] == st[i]);
            }
        }
    }
}

/// A state copied with its targets moved by `m` has the moved successors.
proof fn lemma_remap_succ(s: StateView, m: Map<usize, usize>, x: usize)
    requires
        remap_state(s, m) is Some,
        succ(s, x),
        m.contains_key(x),
    ensures
        succ(remap_state(s, m)->0, m[x]),
{
}

/// The successors of a copied state are the moved successors of the state.
proof fn lemma_remap_succ_back(s: StateView, m: Map<usize, usize>, z: usize)
    requires
        remap_state(s, m) is Some,
        succ(remap_state(s, m)->0, z),
        forall|x: usize| #[trigger] succ(s, x) ==> m.contains_key(x),
    ensures
        exists|x: usize| #[trigger] succ(s, x) && m[x] == z,
{
    match s {
        StateView::Single(t) => {
            let x = t.target()->0;
            assert(succ(s, x));
        },
        StateView::Split(a, b) => {
            let x = a.target()->0;
            let y = b.target()->0;
            assert(succ(s, x));
            assert(succ(s, y));
        },
        StateView::Match => {},
    }
}

/// The successors of a copied state: those of the state, moved where `m` moves them.
proof fn lemma_remap_succ_any(s: StateView, m: Map<usize, usize>, z: usize)
    requires
        remap_state(s, m) is Some,
        succ(remap_state(s, m)->0, z),
    ensures
        exists|x: usize| #[trigger] succ(s, x) && (if m.contains_key(x) { m[x] == z } else { x == z }),
{
    match s {
        StateView::Single(t) => {
            let x = t.target()->0;
            assert(succ(s, x));
        },
        StateView::Split(a, b) => {
            let x = a.target()->0;
            let y = b.target()->0;
            assert(succ(s, x));
            assert(succ(s, y));
        },
        StateView::Match => {},
    }
}

/// Copying a sub-NFA that lies in the region `lo..hi` succeeds, and the copy
/// lies in the states it appends.
proof fn lemma_copy_good(st: Seq<StateView>, f: Frag, lo: int, hi: int, lo0: int)
    requires
        frag_good(st, lo, hi, f),
        closed_all(st, lo0, st.len() as int),
        lo0 <= lo,
        st.len() + (hi - lo) <= usize::MAX,
    ensures
        sp_copy(st, f) matches Some((st2, c)) && {
            &&& frag_good(st2, st.len() as int, st2.len() as int, c)
            &&& closed_all(st2, lo0, st2.len() as int)
            &&& keeps(st, st2, st.len() as int)
            &&& st2.len() <= st.len() + (hi - lo)
        },
{
    let empty = Map::<usize, usize>::empty();
    assert(empty.dom() =~= Set::<usize>::empty());
    assert(copy_inv(st, st, empty, lo, hi));
    lemma_dfs_copies(st, st, empty, f.0, f.1, st.len() as nat, lo, hi);
    let (st1, m) = dfs(st, empty, f.0, f.1, st.len() as nat)->0;
    // the end is reached: the copied states are closed under successors
    assert(succ_closed(st, lo, hi, f.1, m.dom())) by {
        assert forall|i: usize, x: usize| m.dom().contains(i) && lo <= i < hi && i != f.1 && #[trigger] succ(st[i as int], x)
            implies m.dom().contains(x) by {
            assert(m.contains_key(i) && !empty.contains_key(i));
        }
    }
    assert(m.contains_key(f.1));
    // every copied state can be moved
    assert forall|i: int| st.len() <= i < st1.len() implies (#[trigger] remap_state(st1[i], m)) is Some by {
        assert(is_copy(m, i));
        let k = choose|k: usize| #[trigger] m.contains_key(k) && m[k] == i;
        assert(st1[i] == st[k as int]);
        if let StateView::Split(a, b) = st[k as int] {
            assert(st[k as int].connected());
            let x = a.target()->0;
            let y = b.target()->0;
            assert(succ(st[k as int], x));
            assert(succ(st[k as int], y));
            assert(!empty.contains_key(k));
        }
    }
    lemma_remap_some(st1, m, st.len() as int);
    let st2 = remap(st1, m, st.len() as int)->0;
    let c = (st.len() as usize, m[f.1]);
    assert(m[f.0] == st.len());
    lemma_dom_size(m, lo, hi);
    let l = st.len() as int;
    let l2 = st2.len() as int;
    assert(keeps(st, st2, l)) by {
        assert forall|i: int| 0 <= i < l implies #[trigger] st2[i] == st[i] by {
            assert(st1[i] == st[i]);
        }
    }
    // the successors of a copied state other than the end are copies
    assert forall|k: usize, x: usize| #[trigger] m.contains_key(k) && k != f.1 && #[trigger] succ(st[k as int], x)
        implies m.contains_key(x) by {
        assert(!empty.contains_key(k));
    }
    assert(st2[c.1 as int] is Single) by {
        assert(st1[c.1 as int] == st[f.1 as int]);
    }
    assert(region_closed(st2, l, l2, c.1)) by {
        assert forall|i: usize, z: usize| l <= i < l2 && i != c.1 && #[trigger] succ(st2[i as int], z) implies l <= z < l2 by {
            assert(is_copy(m, i as int));
            let k = choose|k: usize| #[trigger] m.contains_key(k) && m[k] == i;
            assert(k != f.1);
            assert(st1[i as int] == st[k as int]);
            assert forall|x: usize| #[trigger] succ(st[k as int], x) implies m.contains_key(x) by {
            }
            lemma_remap_succ_back(st[k as int], m, z);
            let x = choose|x: usize| #[trigger] succ(st[k as int], x) && m[x] == z;
            assert(m.contains_key(x));
        }
        assert forall|i: usize| l <= i < l2 && (#[trigger] st2[i as int]) is Split implies st2[i as int].connected() by {
            assert(is_copy(m, i as int));
            let k = choose|k: usize| #[trigger] m.contains_key(k) && m[k] == i;
            assert(st1[i as int] == st[k as int]);
        }
    }
    assert(closed_all(st2, lo0, l2)) by {
        assert forall|i: usize, z: usize| lo0 <= i < l2 && #[trigger] succ(st2[i as int], z) implies lo0 <= z < l2 by {
            if i < l {
                assert(st2[i as int] == st[i as int]);
            } else {
                assert(is_copy(m, i as int));
                let k = choose|k: usize| #[trigger] m.contains_key(k) && m[k] == i;
                assert(st1[i as int] == st[k as int]);
                lemma_remap_succ_any(st[k as int], m, z);
                let x = choose|x: usize| #[trigger] succ(st[k as int], x) && (if m.contains_key(x) { m[x] == z } else { x == z });
            }
        }
        assert forall|i: usize| lo0 <= i < l2 && (#[trigger] st2[i as int]) is Split implies st2[i as int].connected() by {
            if i < l {
                assert(st2[i as int] == st[i as int]);
            } else {
                assert(is_copy(m, i as int));
                let k = choose|k: usize| #[trigger] m.contains_key(k) && m[k] == i;
                assert(st1[i as int] == st[k as int]);
            }
        }
    }
    assert(reaches(st2, l, l2, c.0, c.1)) by {
        assert forall|s2: Set<usize>| #[trigger] succ_closed(st2, l, l2, c.1, s2) && s2.contains(c.0) implies s2.contains(c.1) by {
            let s = Set::new(|k: usize| m.contains_key(k) && s2.contains(m[k]));
            assert(s.contains(f.0));
            assert(succ_closed(st, lo, hi, f.1, s)) by {
                assert forall|i: usize, x: usize| s.contains(i) && lo <= i < hi && i != f.1 && #[trigger] succ(st[i as int], x)
                    implies s.contains(x) by {
                    assert(m.contains_key(x));
                    assert(st1[m[i] as int] == st[i as int]);
                    lemma_remap_succ(st[i as int], m, x);
                    assert(m[i] != m[f.1]);
                    assert(succ(st2[m[i] as int], m[x]));
                }
            }
            assert(s.contains(f.1));
        }
    }
}

/// Whether every transition of the states `lo..hi` of `st` stays there, and
/// every split there has both its transitions.
pub open spec fn closed_all(st: Seq<StateView>, lo: int, hi: int) -> bool {
    &&& 0 <= lo <= hi <= st.len()
    &&& forall|i: usize, x: usize| lo <= i < hi && #[trigger] succ(st[i as int], x) ==> lo <= x < hi
    &&& forall|i: usize| lo <= i < hi && (#[trigger] st[i as int]) is Split ==> st[i as int].connected()
}

proof fn lemma_reaches_widen(st: Seq<StateView>, lo: int, hi: int, lo2: int, hi2: int, a: usize, b: usize)
    requires
        reaches(st, lo, hi, a, b),
        lo2 <= lo,
        hi <= hi2,
    ensures
        reaches(st, lo2, hi2, a, b),
{
    assert forall|s: Set<usize>| #[trigger] succ_closed(st, lo2, hi2, b, s) && s.contains(a) implies s.contains(b) by {
        assert(succ_closed(st, lo, hi, b, s));
    }
}

proof fn lemma_reaches_transfer(st: Seq<StateView>, st2: Seq<StateView>, lo: int, hi: int, a: usize, b: usize)
    requires
        reaches(st, lo, hi, a, b),
        forall|i: usize| lo <= i < hi && i != b ==> #[trigger] st2[i as int] == st[i as int],
    ensures
        reaches(st2, lo, hi, a, b),
{
    assert forall|s: Set<usize>| #[trigger] succ_closed(st2, lo, hi, b, s) && s.contains(a) implies s.contains(b) by {
        assert forall|i: usize, x: usize| s.contains(i) && lo <= i < hi && i != b && #[trigger] succ(st[i as int], x)
            implies s.contains(x) by {
            assert(st2[i as int] == st[i as int]);
        }
        assert(succ_closed(st, lo, hi, b, s));
    }
}

/// A sub-NFA stays good when its states, but its end, are left as they are
/// and its end stays a single state.
proof fn lemma_frag_transfer(st: Seq<StateView>, st2: Seq<StateView>, lo: int, hi: int, f: Frag)
    requires
        frag_good(st, lo, hi, f),
        hi <= st2.len(),
        forall|i: usize| lo <= i < hi && i != f.1 ==> #[trigger] st2[i as int] == st[i as int],
        st2[f.1 as int] is Single,
    ensures
        frag_good(st2, lo, hi, f),
{
    lemma_reaches_transfer(st, st2, lo, hi, f.0, f.1);
    assert forall|i: usize, x: usize| lo <= i < hi && i != f.1 && #[trigger] succ(st2[i as int], x) implies lo <= x < hi by {
        assert(st2[i as int] == st[i as int]);
    }
    assert forall|i: usize| lo <= i < hi && (#[trigger] st2[i as int]) is Split implies st2[i as int].connected() by {
        if i != f.1 {
            assert(st2[i as int] == st[i as int]);
        }
    }
}

/// `ab`: the sub-NFAs `a` and `b`, in regions next to each other, joined.
proof fn lemma_concat_good(st: Seq<StateView>, a: Frag, la: int, ha: int, b: Frag, lb: int, hb: int, lo0: int)
    requires
        frag_good(st, la, ha, a),
        frag_good(st, lb, hb, b),
        ha == lb || hb == la,
        closed_all(st, lo0, st.len() as int),
        lo0 <= la,
        lo0 <= lb,
    ensures
        sp_concat(st, a, b) matches Some((st2, g)) && {
            &&& g == (a.0, b.1)
            &&& st2.len() == st.len()
            &&& closed_all(st2, lo0, st2.len() as int)
            &&& frag_good(st2, if la < lb { la } else { lb }, if ha < hb { hb } else { ha }, g)
            &&& forall|i: int| 0 <= i < st.len() && i != a.1 ==> #[trigger] st2[i] == st[i]
        },
{
    let lo = if la < lb { la } else { lb };
    let hi = if ha < hb { hb } else { ha };
    let st2 = st.update(a.1 as int, StateView::Single(eps(b.0)));
    let g = (a.0, b.1);
    assert(succ(st2[a.1 as int], b.0));
    assert forall|i: usize, x: usize| lo0 <= i < st2.len() && #[trigger] succ(st2[i as int], x) implies lo0 <= x < st2.len() by {
        if i != a.1 {
            assert(st2[i as int] == st[i as int]);
        }
    }
    assert forall|i: usize| lo0 <= i < st2.len() && (#[trigger] st2[i as int]) is Split implies st2[i as int].connected() by {
        assert(st2[i as int] == st[i as int]);
    }
    assert forall|i: usize, x: usize| lo <= i < hi && i != b.1 && #[trigger] succ(st2[i as int], x) implies lo <= x < hi by {
        if i != a.1 {
            assert(st2[i as int] == st[i as int]);
        }
    }
    assert forall|i: usize| lo <= i < hi && (#[trigger] st2[i as int]) is Split implies st2[i as int].connected() by {
        assert(st2[i as int] == st[i as int]);
    }
    assert forall|s: Set<usize>| #[trigger] succ_closed(st2, lo, hi, b.1, s) && s.contains(a.0) implies s.contains(b.1) by {
        assert forall|i: usize, x: usize| s.contains(i) && la <= i < ha && i != a.1 && #[trigger] succ(st[i as int], x)
            implies s.contains(x) by {
            assert(st2[i as int] == st[i as int]);
        }
        assert(succ_closed(st, la, ha, a.1, s));
        assert(s.contains(a.1));
        assert(s.contains(b.0));
        assert forall|i: usize, x: usize| s.contains(i) && lb <= i < hb && i != b.1 && #[trigger] succ(st[i as int], x)
            implies s.contains(x) by {
            assert(st2[i as int] == st[i as int]);
        }
        assert(succ_closed(st, lb, hb, b.1, s));
    }
}

/// Whether `st2` is `st` with states appended and, among the first ones,
/// at most `changed` replaced.
pub open spec fn extends_but(st: Seq<StateView>, st2: Seq<StateView>, changed: usize) -> bool {
    &&& st.len() <= st2.len()
    &&& forall|i: int| 0 <= i < st.len() && i != changed ==> #[trigger] st2[i] == st[i]
}

/// A fresh sub-NFA of two states, the first moving to the second.
proof fn lemma_two_states_good(st: Seq<StateView>, first: StateView, lo0: int)
    requires
        closed_all(st, lo0, st.len() as int),
        st.len() + 2 <= usize::MAX,
        first is Single,
        forall|x: usize| #[trigger] succ(first, x) <==> x == st.len() + 1,
    ensures
        ({
            let (st2, g) = sp_two_states(st, first);
            &&& g == (st.len() as usize, (st.len() + 1) as usize)
            &&& st2.len() == st.len() + 2
            &&& closed_all(st2, lo0, st2.len() as int)
            &&& frag_good(st2, st.len() as int, st2.len() as int, g)
            &&& extends_but(st, st2, g.0)
        }),
{
    let (st2, g) = sp_two_states(st, first);
    let l = st.len() as int;
    assert(st2[l] == first);
    assert(st2[l + 1] == dangling());
    assert forall|i: usize, x: usize| lo0 <= i < st2.len() && #[trigger] succ(st2[i as int], x) implies lo0 <= x < st2.len() by {
        if i < l {
            assert(st2[i as int] == st[i as int]);
        }
    }
    assert forall|i: usize| lo0 <= i < st2.len() && (#[trigger] st2[i as int]) is Split implies st2[i as int].connected() by {
        if i < l {
            assert(st2[i as int] == st[i as int]);
        }
    }
    assert forall|s: Set<usize>| #[trigger] succ_closed(st2, l, l + 2, g.1, s) && s.contains(g.0) implies s.contains(g.1) by {
        assert(succ(st2[g.0 as int], g.1));
    }
    assert forall|i: int| 0 <= i < st.len() && i != g.0 implies #[trigger] st2[i] == st[i] by {
    }
}

/// The result of a construction on the sub-NFA `f`, which lies in
/// `lo..st.len()`: a good sub-NFA over `lo..` the new length, with the states
/// before `lo0` and those before the old length, but `f`'s end, unchanged.
pub open spec fn built_over(st: Seq<StateView>, f: Frag, lo: int, lo0: int, r: Option<(Seq<StateView>, Frag)>) -> bool {
    r matches Some((st2, g)) && {
        &&& closed_all(st2, lo0, st2.len() as int)
        &&& frag_good(st2, lo, st2.len() as int, g)
        &&& extends_but(st, st2, f.1)
    }
}

proof fn lemma_quantifier_good(st: Seq<StateView>, f: Frag, lo: int, lo0: int, q: QuantifierType)
    requires
        frag_good(st, lo, st.len() as int, f),
        closed_all(st, lo0, st.len() as int),
        lo0 <= lo,
        st.len() + 2 <= usize::MAX,
        !(q is Repetition),
    ensures
        built_over(st, f, lo, lo0, match q {
            QuantifierType::ZeroOrMore => sp_zero_or_more(st, f),
            QuantifierType::OneOrMore => sp_one_or_more(st, f),
            _ => sp_zero_or_one(st, f),
        }),
        (match q {
            QuantifierType::ZeroOrMore => sp_zero_or_more(st, f),
            QuantifierType::OneOrMore => sp_one_or_more(st, f),
            _ => sp_zero_or_one(st, f),
        }) matches Some((st2, _)) && st2.len() == st.len() + 2,
{
    let l = st.len() as int;
    let e = (l + 1) as usize;
    let first = match q {
        QuantifierType::ZeroOrMore => StateView::Split(eps(f.0), eps(e)),
        QuantifierType::OneOrMore => StateView::Single(eps(f.0)),
        _ => StateView::Split(eps(f.0), eps(f.1)),
    };
    let patch = match q {
        QuantifierType::ZeroOrMore => StateView::Split(eps(f.0), eps(e)),
        QuantifierType::OneOrMore => StateView::Split(eps(f.0), eps(e)),
        _ => StateView::Single(eps(e)),
    };
    let st1 = st.push(first).push(dangling());
    let st2 = st1.update(f.1 as int, patch);
    let g = (l as usize, e);
    assert(match q {
        QuantifierType::ZeroOrMore => sp_zero_or_more(st, f),
        QuantifierType::OneOrMore => sp_one_or_more(st, f),
        _ => sp_zero_or_one(st, f),
    } == Some((st2, g)));
    assert(st2[l] == first);
    assert(st2[l + 1] == dangling());
    assert(st2[f.1 as int] == patch);
    assert forall|i: usize, x: usize| lo0 <= i < st2.len() && #[trigger] succ(st2[i as int], x) implies lo0 <= x < st2.len() by {
        if i < l && i != f.1 {
            assert(st2[i as int] == st[i as int]);
        }
    }
    assert forall|i: usize| lo0 <= i < st2.len() && (#[trigger] st2[i as int]) is Split implies st2[i as int].connected() by {
        if i < l && i != f.1 {
            assert(st2[i as int] == st[i as int]);
        }
    }
    assert forall|i: usize, x: usize| lo <= i < l + 2 && i != e && #[trigger] succ(st2[i as int], x) implies lo <= x < l + 2 by {
        if i < l && i != f.1 {
            assert(st2[i as int] == st[i as int]);
        }
    }
    assert forall|i: usize| lo <= i < l + 2 && (#[trigger] st2[i as int]) is Split implies st2[i as int].connected() by {
        if i < l && i != f.1 {
            assert(st2[i as int] == st[i as int]);
        }
    }
    assert forall|s: Set<usize>| #[trigger] succ_closed(st2, lo, l + 2, e, s) && s.contains(g.0) implies s.contains(e) by {
        assert(succ(st2[l], f.0));
        assert(s.contains(f.0));
        if q is ZeroOrMore {
            assert(succ(st2[l], e));
        } else if q is OneOrMore {
            assert forall|i: usize, x: usize| s.contains(i) && lo <= i < l && i != f.1 && #[trigger] succ(st[i as int], x)
                implies s.contains(x) by {
                assert(st2[i as int] == st[i as int]);
            }
            assert(succ_closed(st, lo, l, f.1, s));
            assert(s.contains(f.1));
            assert(succ(st2[f.1 as int], e));
        } else {
            assert(succ(st2[l], f.1));
            assert(succ(st2[f.1 as int], e));
        }
    }
    assert forall|i: int| 0 <= i < st.len() && i != f.1 implies #[trigger] st2[i] == st[i] by {
    }
}

proof fn lemma_alternate_good(st: Seq<StateView>, a: Frag, b: Frag, lo: int, mid: int, lo0: int)
    requires
        frag_good(st, lo, mid, a),
        frag_good(st, mid, st.len() as int, b),
        closed_all(st, lo0, st.len() as int),
        lo0 <= lo,
        st.len() + 2 <= usize::MAX,
    ensures
        sp_alternate(st, a, b) matches Some((st2, g)) && {
            &&& closed_all(st2, lo0, st2.len() as int)
            &&& frag_good(st2, lo, st2.len() as int, g)
            &&& st2.len() == st.len() + 2
            &&& forall|i: int| 0 <= i < lo ==> #[trigger] st2[i] == st[i]
        },
{
    let l = st.len() as int;
    let e = (l + 1) as usize;
    let st1 = st.push(StateView::Split(eps(a.0), eps(b.0))).push(dangling());
    let st2 = st1.update(a.1 as int, StateView::Single(eps(e)));
    let st3 = st2.update(b.1 as int, StateView::Single(eps(e)));
    let g = (l as usize, e);
    assert(sp_alternate(st, a, b) == Some((st3, g)));
    assert forall|i: usize, x: usize| lo0 <= i < st3.len() && #[trigger] succ(st3[i as int], x) implies lo0 <= x < st3.len() by {
        if i < l && i != a.1 && i != b.1 {
            assert(st3[i as int] == st[i as int]);
        }
    }
    assert forall|i: usize| lo0 <= i < st3.len() && (#[trigger] st3[i as int]) is Split implies st3[i as int].connected() by {
        if i < l && i != a.1 && i != b.1 {
            assert(st3[i as int] == st[i as int]);
        }
    }
    assert forall|i: usize, x: usize| lo <= i < l + 2 && i != e && #[trigger] succ(st3[i as int], x) implies lo <= x < l + 2 by {
        if i < l && i != a.1 && i != b.1 {
            assert(st3[i as int] == st[i as int]);
        }
    }
    assert forall|i: usize| lo <= i < l + 2 && (#[trigger] st3[i as int]) is Split implies st3[i as int].connected() by {
        if i < l && i != a.1 && i != b.1 {
            assert(st3[i as int] == st[i as int]);
        }
    }
    assert forall|s: Set<usize>| #[trigger] succ_closed(st3, lo, l + 2, e, s) && s.contains(g.0) implies s.contains(e) by {
        assert(succ(st3[l], a.0));
        assert(s.contains(a.0));
        assert forall|i: usize, x: usize| s.contains(i) && lo <= i < mid && i != a.1 && #[trigger] succ(st[i as int], x)
            implies s.contains(x) by {
            assert(st3[i as int] == st[i as int]);
        }
        assert(succ_closed(st, lo, mid, a.1, s));
        assert(s.contains(a.1));
        assert(succ(st3[a.1 as int], e));
    }
    assert forall|i: int| 0 <= i < lo implies #[trigger] st3[i] == st[i] by {
    }
}

proof fn lemma_anchor_good(st: Seq<StateView>, f: Frag, lo: int, lo0: int, start: bool)
    requires
        frag_good(st, lo, st.len() as int, f),
        closed_all(st, lo0, st.len() as int),
        lo0 <= lo,
        st.len() + 1 <= usize::MAX,
    ensures
        built_over(st, f, lo, lo0, if start { Some(sp_start_anchor(st, f)) } else { sp_end_anchor(st, f) }),
        (if start { Some(sp_start_anchor(st, f)) } else { sp_end_anchor(st, f) }) matches Some((st2, _))
            && st2.len() == st.len() + 1,
{
    let l = st.len() as int;
    if start {
        let (st2, g) = sp_start_anchor(st, f);
        assert(st2[l] == StateView::Single(TransitionView::Epsilon(f.0, EpsilonCondition::StartAnchor)));
        assert forall|i: usize, x: usize| lo0 <= i < st2.len() && #[trigger] succ(st2[i as int], x) implies lo0 <= x < st2.len() by {
            if i < l {
                assert(st2[i as int] == st[i as int]);
            }
        }
        assert forall|i: usize| lo0 <= i < st2.len() && (#[trigger] st2[i as int]) is Split implies st2[i as int].connected() by {
            if i < l {
                assert(st2[i as int] == st[i as int]);
            }
        }
        assert forall|i: usize, x: usize| lo <= i < l + 1 && i != f.1 && #[trigger] succ(st2[i as int], x) implies lo <= x < l + 1 by {
            if i < l {
                assert(st2[i as int] == st[i as int]);
            }
        }
        assert forall|i: usize| lo <= i < l + 1 && (#[trigger] st2[i as int]) is Split implies st2[i as int].connected() by {
            if i < l {
                assert(st2[i as int] == st[i as int]);
            }
        }
        assert forall|s: Set<usize>| #[trigger] succ_closed(st2, lo, l + 1, f.1, s) && s.contains(g.0) implies s.contains(f.1) by {
            assert(succ(st2[l], f.0));
            assert(s.contains(f.0));
            assert forall|i: usize, x: usize| s.contains(i) && lo <= i < l && i != f.1 && #[trigger] succ(st[i as int], x)
                implies s.contains(x) by {
                assert(st2[i as int] == st[i as int]);
            }
            assert(succ_closed(st, lo, l, f.1, s));
        }
        assert(st2[f.1 as int] == st[f.1 as int]);
        assert forall|i: int| 0 <= i < st.len() && i != f.1 implies #[trigger] st2[i] == st[i] by {
        }
    } else {
        let e = l as usize;
        let st1 = st.push(dangling());
        let st2 = st1.update(f.1 as int, StateView::Single(TransitionView::Epsilon(e, EpsilonCondition::EndAnchor)));
        let g = (f.0, e);
        assert(sp_end_anchor(st, f) == Some((st2, g)));
        assert(st2[l] == dangling());
        assert forall|i: usize, x: usize| lo0 <= i < st2.len() && #[trigger] succ(st2[i as int], x) implies lo0 <= x < st2.len() by {
            if i < l && i != f.1 {
                assert(st2[i as int] == st[i as int]);
            }
        }
        assert forall|i: usize| lo0 <= i < st2.len() && (#[trigger] st2[i as int]) is Split implies st2[i as int].connected() by {
            if i < l && i != f.1 {
                assert(st2[i as int] == st[i as int]);
            }
        }
        assert forall|i: usize, x: usize| lo <= i < l + 1 && i != e && #[trigger] succ(st2[i as int], x) implies lo <= x < l + 1 by {
            if i < l && i != f.1 {
                assert(st2[i as int] == st[i as int]);
            }
        }
        assert forall|i: usize| lo <= i < l + 1 && (#[trigger] st2[i as int]) is Split implies st2[i as int].connected() by {
            if i < l && i != f.1 {
                assert(st2[i as int] == st[i as int]);
            }
        }
        assert forall|s: Set<usize>| #[trigger] succ_closed(st2, lo, l + 1, e, s) && s.contains(g.0) implies s.contains(e) by {
            assert forall|i: usize, x: usize| s.contains(i) && lo <= i < l && i != f.1 && #[trigger] succ(st[i as int], x)
                implies s.contains(x) by {
                assert(st2[i as int] == st[i as int]);
            }
            assert(succ_closed(st, lo, l, f.1, s));
            assert(s.contains(f.1));
            assert(succ(st2[f.1 as int], e));
        }
        assert forall|i: int| 0 <= i < st.len() && i != f.1 implies #[trigger] st2[i] == st[i] by {
        }
    }
}

/// Whether `st2` keeps the states of `st` below `hi`, but `end`.
pub open spec fn keeps_but(st: Seq<StateView>, st2: Seq<StateView>, hi: int, end: usize) -> bool {
    &&& hi <= st.len()
    &&& hi <= st2.len()
    &&& forall|i: int| 0 <= i < hi && i != end ==> #[trigger] st2[i] == st[i]
}

proof fn lemma_closed_all_keep(st: Seq<StateView>, st2: Seq<StateView>, lo: int, hi: int)
    requires
        closed_all(st, lo, hi),
        hi <= st2.len(),
        forall|i: int| lo <= i < hi ==> #[trigger] st2[i] == st[i],
    ensures
        closed_all(st2, lo, hi),
{
    assert forall|i: usize, x: usize| lo <= i < hi && #[trigger] succ(st2[i as int], x) implies lo <= x < hi by {
        assert(st2[i as int] == st[i as int]);
    }
    assert forall|i: usize| lo <= i < hi && (#[trigger] st2[i as int]) is Split implies st2[i as int].connected() by {
        assert(st2[i as int] == st[i as int]);
    }
}

proof fn lemma_closed_all_join(st: Seq<StateView>, a: int, b: int, c: int)
    requires
        closed_all(st, a, b),
        closed_all(st, b, c),
    ensures
        closed_all(st, a, c),
{
}

/// A good sub-NFA stays good in a larger region that is closed.
proof fn lemma_good_widen(st: Seq<StateView>, lo: int, hi: int, lo2: int, f: Frag)
    requires
        frag_good(st, lo, hi, f),
        closed_all(st, lo2, hi),
        lo2 <= lo,
    ensures
        frag_good(st, lo2, hi, f),
{
    lemma_reaches_widen(st, lo, hi, lo2, hi, f.0, f.1);
}

/// `acc` followed by `k` copies of `f`.
proof fn lemma_repeat_good(st: Seq<StateView>, f: Frag, acc: Frag, k: nat, lo: int, hi: int, lo0: int)
    requires
        frag_good(st, lo, hi, f),
        frag_good(st, lo, st.len() as int, acc),
        acc.1 == f.1 || acc.1 >= hi,
        closed_all(st, lo0, st.len() as int),
        lo0 <= lo,
        st.len() + k * (hi - lo) <= usize::MAX,
    ensures
        sp_repeat(st, f, acc, k) matches Some((st2, acc2)) && {
            &&& frag_good(st2, lo, st2.len() as int, acc2)
            &&& frag_good(st2, lo, hi, f)
            &&& acc2.1 == f.1 || acc2.1 >= hi
            &&& closed_all(st2, lo0, st2.len() as int)
            &&& st2.len() <= st.len() + k * (hi - lo)
            &&& keeps_but(st, st2, hi, f.1)
            &&& keeps(st, st2, lo)
        },
    decreases k,
{
    if k == 0 {
        assert(keeps_but(st, st, hi, f.1));
        assert(keeps(st, st, lo));
    } else {
        let l = st.len() as int;
        assert(k * (hi - lo) == (k - 1) * (hi - lo) + (hi - lo)) by (nonlinear_arith);
        assert((k - 1) * (hi - lo) >= 0) by (nonlinear_arith)
            requires
                k >= 1,
                hi - lo >= 0,
        ;
        lemma_copy_good(st, f, lo, hi, lo0);
        let (st1, c) = sp_copy(st, f)->0;
        let l1 = st1.len() as int;
        lemma_frag_transfer(st, st1, lo, hi, f);
        lemma_frag_transfer(st, st1, lo, l, acc);
        lemma_concat_good(st1, acc, lo, l, c, l, l1, lo0);
        let (st2, acc2) = sp_concat(st1, acc, c)->0;
        lemma_frag_transfer(st1, st2, lo, hi, f);
        assert(acc2.1 >= hi);
        lemma_repeat_good(st2, f, acc2, (k - 1) as nat, lo, hi, lo0);
        let (st3, acc3) = sp_repeat(st2, f, acc2, (k - 1) as nat)->0;
        assert(keeps_but(st, st3, hi, f.1)) by {
            assert forall|i: int| 0 <= i < hi && i != f.1 implies #[trigger] st3[i] == st[i] by {
                assert(st3[i] == st2[i]);
                assert(st2[i] == st1[i]);
                assert(st1[i] == st[i]);
            }
        }
        assert(keeps(st, st3, lo)) by {
            assert forall|i: int| 0 <= i < lo implies #[trigger] st3[i] == st[i] by {
                assert(st3[i] == st2[i]);
                assert(st2[i] == st1[i]);
                assert(st1[i] == st[i]);
            }
        }
    }
}

/// `acc` followed by `k` optional copies of `f`.
proof fn lemma_repeat_optional_good(
    st: Seq<StateView>,
    f: Frag,
    acc: Frag,
    k: nat,
    lo: int,
    hi: int,
    la: int,
    lo0: int,
)
    requires
        frag_good(st, lo, hi, f),
        hi <= la,
        frag_good(st, la, st.len() as int, acc),
        closed_all(st, lo0, st.len() as int),
        lo0 <= lo,
        st.len() + k * (hi - lo + 2) <= usize::MAX,
    ensures
        sp_repeat_optional(st, f, acc, k) matches Some((st2, acc2)) && {
            &&& frag_good(st2, la, st2.len() as int, acc2)
            &&& frag_good(st2, lo, hi, f)
            &&& closed_all(st2, lo0, st2.len() as int)
            &&& st2.len() <= st.len() + k * (hi - lo + 2)
            &&& keeps(st, st2, la)
        },
    decreases k,
{
    if k == 0 {
        assert(keeps(st, st, la));
    } else {
        let l = st.len() as int;
        assert(k * (hi - lo + 2) == (k - 1) * (hi - lo + 2) + (hi - lo + 2)) by (nonlinear_arith);
        assert((k - 1) * (hi - lo + 2) >= 0) by (nonlinear_arith)
            requires
                k >= 1,
                hi - lo >= 0,
        ;
        lemma_copy_good(st, f, lo, hi, lo0);
        let (st1, c) = sp_copy(st, f)->0;
        let l1 = st1.len() as int;
        lemma_quantifier_good(st1, c, l, lo0, QuantifierType::ZeroOrOne);
        let (st2, c2) = sp_zero_or_one(st1, c)->0;
        lemma_frag_transfer(st, st2, lo, hi, f);
        lemma_frag_transfer(st, st2, la, l, acc);
        lemma_concat_good(st2, acc, la, l, c2, l, st2.len() as int, lo0);
        let (st3, acc3) = sp_concat(st2, acc, c2)->0;
        lemma_frag_transfer(st2, st3, lo, hi, f);
        lemma_repeat_optional_good(st3, f, acc3, (k - 1) as nat, lo, hi, la, lo0);
        let (st4, acc4) = sp_repeat_optional(st3, f, acc3, (k - 1) as nat)->0;
        assert(keeps(st, st4, la)) by {
            assert forall|i: int| 0 <= i < la implies #[trigger] st4[i] == st[i] by {
                assert(st4[i] == st3[i]);
                assert(st3[i] == st2[i]);
                assert(st2[i] == st1[i]);
                assert(st1[i] == st[i]);
            }
        }
    }
}

/// The upper bound of a repetition `{m,n}`, or 0 where it has none.
pub open spec fn upper_or_zero(n: Option<usize>) -> nat {
    match n {
        Some(x) => x as nat,
        None => 0,
    }
}

/// How many states a repetition `{m,n}` of a sub-NFA of `s` states adds at most.
pub open spec fn repetition_bound(s: nat, m: usize, n: Option<usize>) -> nat {
    ((m as nat) + upper_or_zero(n) + 1) * (s + 2)
}

proof fn lemma_repetition_good(st: Seq<StateView>, f: Frag, m: usize, n: Option<usize>, lo: int)
    requires
        frag_good(st, lo, st.len() as int, f),
        closed_all(st, lo, st.len() as int),
        n matches Some(x) ==> m <= x,
        st.len() + repetition_bound((st.len() - lo) as nat, m, n) <= usize::MAX,
    ensures
        built_over(st, f, lo, lo, sp_repetition(st, f, m, n)),
        sp_repetition(st, f, m, n) matches Some((st2, _)) && st2.len() <= st.len() + repetition_bound(
            (st.len() - lo) as nat,
            m,
            n,
        ),
{
    let l = st.len() as int;
    let sz = l - lo;
    let nv = upper_or_zero(n);
    let b = repetition_bound(sz as nat, m, n);
    assert(b == (m + nv + 1) * (sz + 2));
    assert(b >= 2 + (m + nv) * (sz + 2)) by (nonlinear_arith)
        requires
            b == (m + nv + 1) * (sz + 2),
            sz >= 0,
    ;
    if m == 0 && n == Some(0usize) {
        let first = StateView::Single(TransitionView::Epsilon((l + 1) as usize, EpsilonCondition::Unconditional));
        lemma_two_states_good(st, first, lo);
        let (st2, g) = sp_two_states(st, first);
        lemma_good_widen(st2, l, st2.len() as int, lo, g);
    } else {
        let pre = if m == 0 { Some((st, f)) } else { sp_repeat(st, f, f, (m - 1) as nat) };
        if m != 0 {
            assert((m - 1) * sz <= (m + nv) * (sz + 2)) by (nonlinear_arith)
                requires
                    m >= 1,
                    sz >= 0,
                    nv >= 0,
            ;
            lemma_repeat_good(st, f, f, (m - 1) as nat, lo, l, lo);
        } else {
            assert(keeps_but(st, st, l, f.1));
        }
        let (st1, mf) = pre->0;
        let l1 = st1.len() as int;
        assert(l1 <= l + (m - 1) * sz || m == 0);
        assert(frag_good(st1, lo, l1, mf));
        assert(frag_good(st1, lo, l, f));
        assert(closed_all(st1, lo, l1));
        assert(keeps_but(st, st1, l, f.1));
        match n {
            Some(nn) => {
                if nn > m {
                    let r = (nn - m - 1) as nat;
                    assert(l1 + sz + 2 + r * (sz + 2) <= l + b) by (nonlinear_arith)
                        requires
                            l1 <= l + (m - 1) * sz || m == 0,
                            m == 0 ==> l1 == l,
                            r == nn - m - 1,
                            nn > m,
                            nv == nn,
                            b == (m + nv + 1) * (sz + 2),
                            sz >= 0,
                    ;
                    lemma_copy_good(st1, f, lo, l, lo);
                    let (st2, c) = sp_copy(st1, f)->0;
                    lemma_quantifier_good(st2, c, l1, lo, QuantifierType::ZeroOrOne);
                    let (st3, c2) = sp_zero_or_one(st2, c)->0;
                    lemma_frag_transfer(st1, st3, lo, l, f);
                    lemma_repeat_optional_good(st3, f, c2, r, lo, l, l1, lo);
                    let (st4, nf) = sp_repeat_optional(st3, f, c2, r)->0;
                    lemma_frag_transfer(st1, st4, lo, l1, mf);
                    lemma_concat_good(st4, mf, lo, l1, nf, l1, st4.len() as int, lo);
                    let (st5, g) = sp_concat(st4, mf, nf)->0;
                    assert(extends_but(st, st5, f.1)) by {
                        assert forall|i: int| 0 <= i < st.len() && i != f.1 implies #[trigger] st5[i] == st[i] by {
                            assert(st5[i] == st4[i]);
                            assert(st4[i] == st3[i]);
                            assert(st3[i] == st2[i]);
                            assert(st2[i] == st1[i]);
                        }
                    }
                } else {
                    assert(nn == m);
                    assert(extends_but(st, st1, f.1));
                    if m == 0 {
                    } else {
                        assert(l1 <= l + b) by (nonlinear_arith)
                            requires
                                l1 <= l + (m - 1) * sz,
                                m >= 1,
                                b == (m + nv + 1) * (sz + 2),
                                sz >= 0,
                                nv >= 0,
                        ;
                    }
                }
            },
            None => {
                assert(l1 + sz + 2 <= l + b) by (nonlinear_arith)
                    requires
                        l1 <= l + (m - 1) * sz || m == 0,
                        m == 0 ==> l1 == l,
                        b == (m + nv + 1) * (sz + 2),
                        nv == 0,
                        sz >= 0,
                ;
                lemma_copy_good(st1, f, lo, l, lo);
                let (st2, c) = sp_copy(st1, f)->0;
                lemma_quantifier_good(st2, c, l1, lo, QuantifierType::ZeroOrMore);
                let (st3, last) = sp_zero_or_more(st2, c)->0;
                lemma_frag_transfer(st1, st3, lo, l1, mf);
                lemma_concat_good(st3, last, l1, st3.len() as int, mf, lo, l1, lo);
                let (st4, g) = sp_concat(st3, last, mf)->0;
                assert(extends_but(st, st4, f.1)) by {
                    assert forall|i: int| 0 <= i < st.len() && i != f.1 implies #[trigger] st4[i] == st[i] by {
                        assert(st4[i] == st3[i]);
                        assert(st3[i] == st2[i]);
                        assert(st2[i] == st1[i]);
                    }
                }
            },
        }
    }
}

/// How many states building `ast` adds at most.
pub open spec fn walk_bound(ast: NodeView) -> nat
    decreases ast,
{
    match ast {
        NodeView::AnchorStart(b) => walk_bound(*b) + 1,
        NodeView::AnchorEnd(b) => walk_bound(*b) + 1,
        NodeView::Group(b) => walk_bound(*b),
        NodeView::Quantifier(b, q) => match q {
            QuantifierType::Repetition(m, n) => walk_bound(*b) + repetition_bound(walk_bound(*b), m, n),
            _ => walk_bound(*b) + 2,
        },
        NodeView::Concatenation(a, b) => walk_bound(*a) + walk_bound(*b),
        NodeView::Alternation(a, b) => walk_bound(*a) + walk_bound(*b) + 2,
        _ => 2,
    }
}

/// Whether no repetition `{m,n}` in `ast` has `n` below `m`.
pub open spec fn repetitions_ordered(ast: NodeView) -> bool
    decreases ast,
{
    match ast {
        NodeView::AnchorStart(b) => repetitions_ordered(*b),
        NodeView::AnchorEnd(b) => repetitions_ordered(*b),
        NodeView::Group(b) => repetitions_ordered(*b),
        NodeView::Quantifier(b, q) => (q matches QuantifierType::Repetition(m, Some(n)) ==> m <= n)
            && repetitions_ordered(*b),
        NodeView::Concatenation(a, b) => repetitions_ordered(*a) && repetitions_ordered(*b),
        NodeView::Alternation(a, b) => repetitions_ordered(*a) && repetitions_ordered(*b),
        _ => true,
    }
}

proof fn lemma_repetition_bound_mono(s: nat, t: nat, m: usize, n: Option<usize>)
    requires
        s <= t,
    ensures
        repetition_bound(s, m, n) <= repetition_bound(t, m, n),
{
    let k = (m as nat) + upper_or_zero(n) + 1;
    assert(k * (s + 2) <= k * (t + 2)) by (nonlinear_arith)
        requires
            s <= t,
    ;
}

pub(crate) proof fn lemma_walk_good(st: Seq<StateView>, ast: NodeView)
    requires
        repetitions_ordered(ast),
        st.len() + walk_bound(ast) <= usize::MAX,
    ensures
        sp_walk(st, ast) matches Some((st2, f)) && {
            &&& closed_all(st2, st.len() as int, st2.len() as int)
            &&& frag_good(st2, st.len() as int, st2.len() as int, f)
            &&& keeps(st, st2, st.len() as int)
            &&& st2.len() <= st.len() + walk_bound(ast)
        },
    decreases ast,
{
    let l = st.len() as int;
    assert(closed_all(st, l, l));
    match ast {
        NodeView::Literal(c) => {
            lemma_two_states_good(st, StateView::Single(TransitionView::Literal((l + 1) as usize, MatchView::Literal(c))), l);
        },
        NodeView::CharacterClass(c) => {
            lemma_two_states_good(st, StateView::Single(TransitionView::Literal((l + 1) as usize, MatchView::CharacterClass(c))), l);
        },
        NodeView::CharacterSet(neg, sets) => {
            lemma_two_states_good(st, StateView::Single(TransitionView::Literal((l + 1) as usize, MatchView::CharacterSet(neg, sets))), l);
        },
        NodeView::Any => {
            lemma_two_states_good(st, StateView::Single(TransitionView::Literal((l + 1) as usize, MatchView::Any)), l);
        },
        NodeView::WordBoundary => {
            lemma_two_states_good(st, StateView::Single(TransitionView::Epsilon((l + 1) as usize, EpsilonCondition::WordBoundary)), l);
        },
        NodeView::NonWordBoundary => {
            lemma_two_states_good(st, StateView::Single(TransitionView::Epsilon((l + 1) as usize, EpsilonCondition::NonWordBoundary)), l);
        },
        NodeView::AnchorStart(b) => {
            lemma_walk_good(st, *b);
            let (st1, f) = sp_walk(st, *b)->0;
            lemma_anchor_good(st1, f, l, l, true);
            let (st2, g) = sp_start_anchor(st1, f);
            assert(keeps(st, st2, l)) by {
                assert forall|i: int| 0 <= i < l implies #[trigger] st2[i] == st[i] by {
                    assert(st2[i] == st1[i]);
                }
            }
        },
        NodeView::AnchorEnd(b) => {
            lemma_walk_good(st, *b);
            let (st1, f) = sp_walk(st, *b)->0;
            lemma_anchor_good(st1, f, l, l, false);
            let (st2, g) = sp_end_anchor(st1, f)->0;
            assert(keeps(st, st2, l)) by {
                assert forall|i: int| 0 <= i < l implies #[trigger] st2[i] == st[i] by {
                    assert(st2[i] == st1[i]);
                }
            }
        },
        NodeView::Group(b) => {
            lemma_walk_good(st, *b);
        },
        NodeView::Quantifier(b, q) => {
            lemma_walk_good(st, *b);
            let (st1, f) = sp_walk(st, *b)->0;
            let r = match q {
                QuantifierType::ZeroOrMore => sp_zero_or_more(st1, f),
                QuantifierType::OneOrMore => sp_one_or_more(st1, f),
                QuantifierType::ZeroOrOne => sp_zero_or_one(st1, f),
                QuantifierType::Repetition(m, n) => sp_repetition(st1, f, m, n),
            };
            match q {
                QuantifierType::Repetition(m, n) => {
                    lemma_repetition_bound_mono((st1.len() - l) as nat, walk_bound(*b), m, n);
                    lemma_repetition_good(st1, f, m, n, l);
                },
                _ => {
                    lemma_quantifier_good(st1, f, l, l, q);
                },
            }
            let (st2, g) = r->0;
            assert(keeps(st, st2, l)) by {
                assert forall|i: int| 0 <= i < l implies #[trigger] st2[i] == st[i] by {
                    assert(st2[i] == st1[i]);
                }
            }
        },
        NodeView::Concatenation(a, b) => {
            lemma_walk_good(st, *a);
            let (st1, fa) = sp_walk(st, *a)->0;
            let l1 = st1.len() as int;
            lemma_walk_good(st1, *b);
            let (st2, fb) = sp_walk(st1, *b)->0;
            let l2 = st2.len() as int;
            lemma_frag_transfer(st1, st2, l, l1, fa);
            lemma_closed_all_keep(st1, st2, l, l1);
            lemma_closed_all_join(st2, l, l1, l2);
            lemma_concat_good(st2, fa, l, l1, fb, l1, l2, l);
            let (st3, g) = sp_concat(st2, fa, fb)->0;
            assert(keeps(st, st3, l)) by {
                assert forall|i: int| 0 <= i < l implies #[trigger] st3[i] == st[i] by {
                    assert(st3[i] == st2[i]);
                    assert(st2[i] == st1[i]);
                }
            }
        },
        NodeView::Alternation(a, b) => {
            lemma_walk_good(st, *a);
            let (st1, fa) = sp_walk(st, *a)->0;
            let l1 = st1.len() as int;
            lemma_walk_good(st1, *b);
            let (st2, fb) = sp_walk(st1, *b)->0;
            let l2 = st2.len() as int;
            lemma_frag_transfer(st1, st2, l, l1, fa);
            lemma_closed_all_keep(st1, st2, l, l1);
            lemma_closed_all_join(st2, l, l1, l2);
            lemma_alternate_good(st2, fa, fb, l, l1, l);
            let (st3, g) = sp_alternate(st2, fa, fb)->0;
            assert(keeps(st, st3, l)) by {
                assert forall|i: int| 0 <= i < l implies #[trigger] st3[i] == st[i] by {
                    assert(st3[i] == st2[i]);
                    assert(st2[i] == st1[i]);
                }
            }
        },
    }
}

proof fn lemma_targets_from_succ(s: StateView, n: nat)
    requires
        forall|x: usize| #[trigger] succ(s, x) ==> x < n,
    ensures
        targets_below(s, n),
{
    match s {
        StateView::Single(t) => {
            if let Some(x) = t.target() {
                assert(succ(s, x));
            }
        },
        StateView::Split(a, b) => {
            if let Some(x) = a.target() {
                assert(succ(s, x));
            }
            if let Some(y) = b.target() {
                assert(succ(s, y));
            }
        },
        StateView::Match => {},
    }
}

/// Compiling a syntax tree never panics, and gives a closed automaton: its
/// start is one of its states, and every transition leads to one of its
/// states. This holds of every tree whose repetitions `{m,n}` have `m <= n`
/// and whose automaton fits in memory.
pub proof fn lemma_compile_succeeds(ast: NodeView)
    requires
        repetitions_ordered(ast),
        walk_bound(ast) <= usize::MAX,
    ensures
        sp_compile(Seq::empty(), ast) matches Some(nfa) && nfa_wf(nfa),
{
    let st = Seq::<StateView>::empty();
    lemma_walk_good(st, ast);
    let (st1, f) = sp_walk(st, ast)->0;
    let st2 = st1.update(f.1 as int, StateView::Match);
    assert forall|q: int| 0 <= q < st2.len() implies #[trigger] targets_below(st2[q], st2.len()) by {
        if q != f.1 {
            assert forall|x: usize| #[trigger] succ(st2[q], x) implies x < st2.len() by {
                assert(st2[q] == st1[q]);
                assert(succ(st1[q as usize as int], x));
            }
            lemma_targets_from_succ(st2[q], st2.len());
        }
    }
}

} // verus!
