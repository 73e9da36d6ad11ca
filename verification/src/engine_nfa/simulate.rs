//! Runs an NFA over a text, keeping the set of states it can be in.
use vstd::prelude::*;
use std::collections::HashSet;
use vstd::std_specs::iter::IteratorSpec;
use crate::matcher::matcher;
use crate::types::ast_types::{NodeView, QuantifierType};
use crate::types::nfa_types::{
    nfa_wf, targets_below, EpsilonCondition, NFAView, State, StateView, Transition, TransitionView, NFA,
};

verus! {

broadcast use vstd::std_specs::hash::group_hash_axioms, vstd::set_lib::range_set_properties,
    vstd::seq_lib::group_seq_properties;

/// Whether the text must match as a whole or may match anywhere in it.
#[derive(Debug, PartialEq, Eq, Structural)]
pub enum SearchType {
    Substring,
    Fullstring,
}

/// A letter, a digit or `_`.
pub open spec fn is_word_char(c: char) -> bool {
    crate::matcher::spec_is_ascii_alphabetic(c) || c == '_' || crate::matcher::spec_is_ascii_digit(c)
}

/// Whether position `pos` of `s` is a word boundary: one of the characters
/// at `pos - 1` and `pos + 1` is a word character and the other is not
/// (there is none before the start and none from the last character on).
pub open spec fn word_boundary(s: Seq<char>, pos: int) -> bool {
    let left = if pos == 0 { false } else { is_word_char(s[pos - 1]) };
    let right = if pos >= s.len() - 1 { false } else { is_word_char(s[pos + 1]) };
    left != right
}

/// Whether an epsilon transition with condition `c` may be taken at `pos`.
pub open spec fn condition_holds(c: EpsilonCondition, s: Seq<char>, pos: int) -> bool {
    match c {
        EpsilonCondition::Unconditional => true,
        EpsilonCondition::StartAnchor => pos == 0,
        EpsilonCondition::EndAnchor => pos == s.len() - 1,
        EpsilonCondition::WordBoundary => word_boundary(s, pos),
        EpsilonCondition::NonWordBoundary => !word_boundary(s, pos),
    }
}

/// Whether deciding `c` looks at the length of the text.
pub open spec fn is_boundary_condition(c: EpsilonCondition) -> bool {
    c is EndAnchor || c is WordBoundary || c is NonWordBoundary
}

/// The target of `t` when it is an epsilon transition that may be taken at `pos`.
pub open spec fn eps_target(t: TransitionView, s: Seq<char>, pos: int) -> Option<usize> {
    match t {
        TransitionView::Epsilon(x, c) => if condition_holds(c, s, pos) {
            Some(x)
        } else {
            None
        },
        _ => None,
    }
}

/// Whether state `q` of `nfa` has an epsilon transition to `x` that may be taken at `pos`.
pub open spec fn eps_next(nfa: NFAView, s: Seq<char>, pos: int, q: usize, x: usize) -> bool {
    q < nfa.states.len() && match nfa.states[q as int] {
        StateView::Single(t) => eps_target(t, s, pos) == Some(x),
        StateView::Split(a, b) => eps_target(a, s, pos) == Some(x) || eps_target(b, s, pos) == Some(x),
        StateView::Match => false,
    }
}

/// Whether `p` is a chain of epsilon transitions that may be taken at `pos`.
pub open spec fn eps_path(nfa: NFAView, s: Seq<char>, pos: int, p: Seq<usize>) -> bool {
    forall|i: int| 0 <= i < p.len() - 1 ==> #[trigger] eps_next(nfa, s, pos, p[i], p[i + 1])
}

/// Whether `x` can be reached from a state of `init` by epsilon transitions at `pos`.
pub open spec fn reachable(nfa: NFAView, s: Seq<char>, pos: int, init: Set<usize>, x: usize) -> bool {
    exists|p: Seq<usize>|
        p.len() > 0 && init.contains(p[0]) && p.last() == x && #[trigger] eps_path(nfa, s, pos, p)
}

/// The epsilon closure of `init` at `pos`.
pub open spec fn closure(nfa: NFAView, s: Seq<char>, pos: int, init: Set<usize>) -> Set<usize> {
    Set::new(|x: usize| reachable(nfa, s, pos, init, x))
}

/// Whether state `q` reads `c` and moves to `x`.
pub open spec fn char_next(nfa: NFAView, q: usize, c: char, x: usize) -> bool {
    q < nfa.states.len() && match nfa.states[q as int] {
        StateView::Single(TransitionView::Literal(y, m)) => y == x && crate::matcher::char_matches(c, m),
        _ => false,
    }
}

/// The states reached from `set` by reading `c`.
pub open spec fn step(nfa: NFAView, set: Set<usize>, c: char) -> Set<usize> {
    Set::new(|x: usize| exists|q: usize| set.contains(q) && #[trigger] char_next(nfa, q, c, x))
}

/// Whether `set` holds an accepting state.
pub open spec fn has_match(nfa: NFAView, set: Set<usize>) -> bool {
    exists|q: usize| set.contains(q) && q < nfa.states.len() && #[trigger] nfa.states[q as int] is Match
}

/// The outcome and the final position of the simulation from `pos` with the
/// states `set`.
pub open spec fn sim_from(nfa: NFAView, s: Seq<char>, substring: bool, pos: int, set: Set<usize>) -> (
    bool,
    int,
)
    decreases s.len() - pos,
{
    if pos >= s.len() {
        (has_match(nfa, set), pos)
    } else if set.is_empty() {
        (false, pos)
    } else {
        let next = closure(nfa, s, pos, step(nfa, set, s[pos]));
        if substring {
            let seeded = next.union(closure(nfa, s, pos + 1, set![nfa.start_state]));
            if has_match(nfa, seeded) {
                (true, pos + 1)
            } else {
                sim_from(nfa, s, substring, pos + 1, seeded)
            }
        } else {
            sim_from(nfa, s, substring, pos + 1, next)
        }
    }
}

/// Whether `nfa` accepts `s` (or a part of it, for a substring search),
/// starting at position `pos`.
pub open spec fn spec_simulate(nfa: NFAView, s: Seq<char>, search_type: SearchType, pos: int) -> bool {
    sim_from(nfa, s, search_type is Substring, pos, closure(nfa, s, pos, set![nfa.start_state])).0
}

/// Whether state `q` has an epsilon transition whose condition looks at the
/// length of the text.
pub open spec fn has_boundary_edge(st: StateView) -> bool {
    match st {
        StateView::Single(TransitionView::Epsilon(_, c)) => is_boundary_condition(c),
        StateView::Split(a, b) => (a matches TransitionView::Epsilon(_, c) && is_boundary_condition(c))
            || (b matches TransitionView::Epsilon(_, c2) && is_boundary_condition(c2)),
        _ => false,
    }
}

/// On an empty text, no state that the search starts in has a transition
/// whose condition looks at the length of the text (deciding one would
/// compute the last position of an empty text).
pub open spec fn start_decidable(nfa: NFAView, s: Seq<char>, pos: int) -> bool {
    s.len() > 0 || forall|q: usize|
        #[trigger] closure(nfa, s, pos, set![nfa.start_state]).contains(q) && q < nfa.states.len()
            ==> !has_boundary_edge(nfa.states[q as int])
}

proof fn lemma_closure_init(nfa: NFAView, s: Seq<char>, pos: int, init: Set<usize>, x: usize)
    requires
        init.contains(x),
    ensures
        closure(nfa, s, pos, init).contains(x),
{
    let p = seq![x];
    assert(eps_path(nfa, s, pos, p));
}

proof fn lemma_closure_step(nfa: NFAView, s: Seq<char>, pos: int, init: Set<usize>, q: usize, x: usize)
    requires
        closure(nfa, s, pos, init).contains(q),
        eps_next(nfa, s, pos, q, x),
    ensures
        closure(nfa, s, pos, init).contains(x),
{
    let p = choose|p: Seq<usize>|
        p.len() > 0 && init.contains(p[0]) && p.last() == q && #[trigger] eps_path(nfa, s, pos, p);
    let p2 = p.push(x);
    assert forall|i: int| 0 <= i < p2.len() - 1 implies #[trigger] eps_next(nfa, s, pos, p2[i], p2[i + 1]) by {
        if i < p.len() - 1 {
            assert(eps_next(nfa, s, pos, p[i], p[i + 1]));
        }
    }
    assert(eps_path(nfa, s, pos, p2));
}

/// A set that holds `init` and is closed under epsilon transitions holds its closure.
proof fn lemma_closure_least(nfa: NFAView, s: Seq<char>, pos: int, init: Set<usize>, t: Set<usize>)
    requires
        init.subset_of(t),
        forall|q: usize, x: usize| t.contains(q) && #[trigger] eps_next(nfa, s, pos, q, x) ==> t.contains(x),
    ensures
        closure(nfa, s, pos, init).subset_of(t),
{
    assert forall|x: usize| closure(nfa, s, pos, init).contains(x) implies t.contains(x) by {
        let p = choose|p: Seq<usize>|
            p.len() > 0 && init.contains(p[0]) && p.last() == x && #[trigger] eps_path(nfa, s, pos, p);
        lemma_path_stays(nfa, s, pos, t, p, p.len() - 1);
    }
}

proof fn lemma_path_stays(nfa: NFAView, s: Seq<char>, pos: int, t: Set<usize>, p: Seq<usize>, k: int)
    requires
        0 <= k < p.len(),
        t.contains(p[0]),
        eps_path(nfa, s, pos, p),
        forall|q: usize, x: usize| t.contains(q) && #[trigger] eps_next(nfa, s, pos, q, x) ==> t.contains(x),
    ensures
        t.contains(p[k]),
    decreases k,
{
    if k > 0 {
        lemma_path_stays(nfa, s, pos, t, p, k - 1);
        let j = k - 1;
        assert(eps_next(nfa, s, pos, p[j], p[j + 1]));
    }
}

proof fn lemma_closure_mono(nfa: NFAView, s: Seq<char>, pos: int, a: Set<usize>, b: Set<usize>)
    requires
        a.subset_of(b),
    ensures
        closure(nfa, s, pos, a).subset_of(closure(nfa, s, pos, b)),
{
    assert forall|x: usize| closure(nfa, s, pos, a).contains(x) implies closure(nfa, s, pos, b).contains(x) by {
        let p = choose|p: Seq<usize>|
            p.len() > 0 && a.contains(p[0]) && p.last() == x && #[trigger] eps_path(nfa, s, pos, p);
        assert(b.contains(p[0]));
    }
}

proof fn lemma_step_mono(nfa: NFAView, a: Set<usize>, b: Set<usize>, c: char)
    requires
        a.subset_of(b),
    ensures
        step(nfa, a, c).subset_of(step(nfa, b, c)),
{
    assert forall|x: usize| step(nfa, a, c).contains(x) implies step(nfa, b, c).contains(x) by {
        let q = choose|q: usize| a.contains(q) && #[trigger] char_next(nfa, q, c, x);
        assert(b.contains(q) && char_next(nfa, q, c, x));
    }
}

/// A search that may start at every position from `pos` on, with the states
/// `g`, succeeds wherever a search of the whole rest of the text with fewer
/// states `f` does.
proof fn lemma_sim_mono(nfa: NFAView, s: Seq<char>, pos: int, f: Set<usize>, g: Set<usize>)
    requires
        f.subset_of(g),
        sim_from(nfa, s, false, pos, f).0,
    ensures
        sim_from(nfa, s, true, pos, g).0,
    decreases s.len() - pos,
{
    if pos >= s.len() {
        let q = choose|q: usize| f.contains(q) && q < nfa.states.len() && #[trigger] nfa.states[q as int] is Match;
        assert(g.contains(q) && nfa.states[q as int] is Match);
    } else {
        assert(!f.is_empty());
        let x = choose|x: usize| f.contains(x);
        assert(g.contains(x));
        assert(!g.is_empty());
        let next_f = closure(nfa, s, pos, step(nfa, f, s[pos]));
        let next_g = closure(nfa, s, pos, step(nfa, g, s[pos]));
        let seeded = next_g.union(closure(nfa, s, pos + 1, set![nfa.start_state]));
        lemma_step_mono(nfa, f, g, s[pos]);
        lemma_closure_mono(nfa, s, pos, step(nfa, f, s[pos]), step(nfa, g, s[pos]));
        assert(next_f.subset_of(seeded));
        if !has_match(nfa, seeded) {
            lemma_sim_mono(nfa, s, pos + 1, next_f, seeded);
        }
    }
}

/// Whatever a search of the whole text accepts, a search for a part of it
/// accepts too.
pub proof fn lemma_fullstring_implies_substring(nfa: NFAView, s: Seq<char>, pos: int)
    ensures
        spec_simulate(nfa, s, SearchType::Fullstring, pos) ==> spec_simulate(nfa, s, SearchType::Substring, pos),
{
    let init = closure(nfa, s, pos, set![nfa.start_state]);
    if spec_simulate(nfa, s, SearchType::Fullstring, pos) {
        lemma_sim_mono(nfa, s, pos, init, init);
    }
}

/// The elements of `set`.
fn elements(set: &HashSet<usize>) -> (v: Vec<usize>)
    ensures
        v@.to_set() == set@,
        v@.no_duplicates(),
{
    let ghost g = vstd::std_specs::hash::spec_hash_keys_iter(set).remaining();
    let mut v: Vec<usize> = Vec::new();
    for x in it: set.iter()
        invariant
            it.seq() == g,
            v@ == it.seq().take(it.index() as int).map_values(|r: &usize| *r),
    {
        assert(x == it.seq()[it.index()]);
        v.push(*x);
        assert(it.seq().take(it.index() + 1) =~= it.seq().take(it.index() as int).push(x));
        assert(v@ =~= it.seq().take(it.index() + 1).map_values(|r: &usize| *r));
    }
    assert(v@ =~= g.map_values(|r: &usize| *r));
    assert(g.unref() =~= g.map_values(|r: &usize| *r));
    v
}

/// Runs an NFA over a text.
pub struct Simulator {
    nfa: NFA,
    input_str_vec: Vec<char>,
    str_pos: usize,
}

impl Simulator {
    /// The NFA that this simulator runs.
    pub closed spec fn nfa_view(self) -> NFAView {
        self.nfa@
    }

    /// The position in the text that the next simulation starts from.
    pub closed spec fn position(self) -> nat {
        self.str_pos as nat
    }

    /// A simulator of `nfa`, at the start of a text.
    pub fn new(nfa: NFA) -> (sim: Self)
        ensures
            sim.nfa_view() == nfa@,
            sim.position() == 0,
    {
        Simulator { nfa, input_str_vec: Vec::new(), str_pos: 0 }
    }

    /// Whether the NFA accepts `input` as a whole (`Fullstring`) or some
    /// part of it (`Substring`), starting from the current position.
    pub fn simulate(&mut self, input: String, search_type: SearchType) -> (res: bool)
        requires
            nfa_wf(old(self).nfa_view()),
            old(self).position() <= input@.len(),
            start_decidable(old(self).nfa_view(), input@, old(self).position() as int),
        ensures
            res == spec_simulate(old(self).nfa_view(), input@, search_type, old(self).position() as int),
            final(self).nfa_view() == old(self).nfa_view(),
            final(self).position() == sim_from(
                old(self).nfa_view(),
                input@,
                search_type is Substring,
                old(self).position() as int,
                closure(old(self).nfa_view(), input@, old(self).position() as int, set![old(self).nfa_view().start_state]),
            ).1,
    {
        let ghost nfa = self.nfa@;
        let ghost s = input@;
        let ghost substring = search_type is Substring;
        self.input_str_vec = crate::text::chars_of(input.as_str());
        let start_state = self.nfa.start_state;
        let mut start = HashSet::new();
        start.insert(start_state);
        assert(start@ =~= set![start_state]);
        let start_set: HashSet<usize> = self.epsilon_closure(&start);
        let mut state_set: HashSet<usize> = start_set;
        let ghost target = sim_from(nfa, s, substring, self.str_pos as int, state_set@);
        assert(target == sim_from(nfa, s, substring, old(self).str_pos as int, closure(nfa, s, old(self).str_pos as int, set![nfa.start_state])));
        while self.str_pos < self.input_str_vec.len()
            invariant
                self.nfa@ == nfa,
                nfa == old(self).nfa@,
                start@ == set![nfa.start_state],
                s == input@,
                nfa_wf(nfa),
                self.input_str_vec@ == s,
                self.str_pos <= s.len(),
                target == sim_from(nfa, s, substring, old(self).str_pos as int, closure(nfa, s, old(self).str_pos as int, set![nfa.start_state])),
                substring == (search_type is Substring),
                target == sim_from(nfa, s, substring, self.str_pos as int, state_set@),
                forall|q: usize| state_set@.contains(q) ==> q < nfa.states.len(),
            decreases s.len() - self.str_pos,
        {
            let ghost set0 = state_set@;
            let ghost pos0 = self.str_pos as int;
            let current_char: char = self.input_str_vec[self.str_pos];
            if state_set.is_empty() {
                return false;
            }
            let moved = self.move_next_state(&state_set, current_char);
            state_set = self.epsilon_closure(&moved);
            self.str_pos = self.str_pos + 1;
            if let SearchType::Substring = search_type {
                let seeded = self.epsilon_closure(&start);
                let ghost next = state_set@;
                let items = elements(&seeded);
                let mut k: usize = 0;
                while k < items.len()
                    invariant
                        k <= items@.len(),
                        state_set@ == next.union(items@.take(k as int).to_set()),
                    decreases items@.len() - k,
                {
                    state_set.insert(items[k]);
                    assert(items@.take(k + 1) =~= items@.take(k as int).push(items@[k as int]));
                    assert(items@.take(k + 1).to_set() =~= items@.take(k as int).to_set().insert(items@[k as int]));
                    k = k + 1;
                }
                assert(items@.take(items@.len() as int) =~= items@);
                assert(state_set@ == closure(nfa, s, pos0, step(nfa, set0, s[pos0])).union(
                    closure(nfa, s, pos0 + 1, set![nfa.start_state]),
                ));
                if self.has_match(&state_set) {
                    return true;
                }
            }
        }
        self.has_match(&state_set)
    }

    /// Whether `state_set` holds an accepting state.
    fn has_match(&self, state_set: &HashSet<usize>) -> (res: bool)
        requires
            forall|q: usize| state_set@.contains(q) ==> q < self.nfa@.states.len(),
        ensures
            res == has_match(self.nfa@, state_set@),
    {
        let items = elements(state_set);
        let mut k: usize = 0;
        while k < items.len()
            invariant
                items@.to_set() == state_set@,
                forall|q: usize| state_set@.contains(q) ==> q < self.nfa@.states.len(),
                forall|j: int| 0 <= j < k ==> !(self.nfa@.states[items@[j] as int] is Match),
            decreases items@.len() - k,
        {
            let state = items[k];
            assert(state_set@.contains(state));
            if let State::Match = self.nfa.states[state] {
                assert(self.nfa@.states[state as int] is Match);
                return true;
            }
            k = k + 1;
        }
        assert forall|q: usize| state_set@.contains(q) && q < self.nfa@.states.len() implies !(
        #[trigger] self.nfa@.states[q as int] is Match) by {
            assert(items@.contains(q));
        }
        false
    }

    /// The states reached from `state_set` by reading `c`.
    fn move_next_state(&self, state_set: &HashSet<usize>, c: char) -> (res: HashSet<usize>)
        requires
            forall|q: usize| state_set@.contains(q) ==> q < self.nfa@.states.len(),
            nfa_wf(self.nfa@),
        ensures
            res@ == step(self.nfa@, state_set@, c),
            forall|q: usize| res@.contains(q) ==> q < self.nfa@.states.len(),
    {
        let ghost nfa = self.nfa@;
        let items = elements(state_set);
        let mut next_state_set: HashSet<usize> = HashSet::new();
        let mut k: usize = 0;
        while k < items.len()
            invariant
                self.nfa@ == nfa,
                nfa_wf(nfa),
                items@.to_set() == state_set@,
                forall|q: usize| state_set@.contains(q) ==> q < nfa.states.len(),
                k <= items@.len(),
                forall|x: usize| next_state_set@.contains(x) <==> exists|j: int|
                    0 <= j < k && #[trigger] char_next(nfa, items@[j], c, x),
            decreases items@.len() - k,
        {
            let state = items[k];
            assert(state_set@.contains(state));
            let ghost before = next_state_set@;
            if let State::Single(Transition::Literal(next, to_match)) = &self.nfa.states[state] {
                if matcher(c, to_match) {
                    next_state_set.insert(*next);
                }
            }
            assert forall|x: usize| next_state_set@.contains(x) <==> exists|j: int|
                0 <= j < k + 1 && #[trigger] char_next(nfa, items@[j], c, x) by {
                if char_next(nfa, items@[k as int], c, x) {
                    assert(next_state_set@.contains(x));
                }
                if next_state_set@.contains(x) && !before.contains(x) {
                    assert(char_next(nfa, items@[k as int], c, x));
                }
            }
            k = k + 1;
        }
        assert forall|x: usize| next_state_set@.contains(x) <==> step(nfa, state_set@, c).contains(x) by {
            if next_state_set@.contains(x) {
                let j = choose|j: int| 0 <= j < items@.len() && #[trigger] char_next(nfa, items@[j], c, x);
                assert(items@.contains(items@[j]));
            }
            if step(nfa, state_set@, c).contains(x) {
                let q = choose|q: usize| state_set@.contains(q) && #[trigger] char_next(nfa, q, c, x);
                assert(items@.to_set().contains(q));
                let j = choose|j: int| 0 <= j < items@.len() && items@[j] == q;
                assert(char_next(nfa, items@[j], c, x));
            }
        }
        assert(next_state_set@ =~= step(nfa, state_set@, c));
        assert forall|x: usize| next_state_set@.contains(x) implies x < nfa.states.len() by {
            let j = choose|j: int| 0 <= j < items@.len() && #[trigger] char_next(nfa, items@[j], c, x);
            let q = items@[j];
            assert(targets_below(nfa.states[q as int], nfa.states.len()));
        }
        next_state_set
    }

    fn epsilon_closure(&self, states: &HashSet<usize>) -> (res: HashSet<usize>)
        requires
            nfa_wf(self.nfa@),
            forall|q: usize| states@.contains(q) ==> q < self.nfa@.states.len(),
            self.str_pos <= self.input_str_vec@.len(),
            self.input_str_vec@.len() > 0 || forall|q: usize|
                #[trigger] closure(self.nfa@, self.input_str_vec@, self.str_pos as int, states@).contains(q)
                    && q < self.nfa@.states.len() ==> !has_boundary_edge(self.nfa@.states[q as int]),
        ensures
            res@ == closure(self.nfa@, self.input_str_vec@, self.str_pos as int, states@),
            forall|q: usize| res@.contains(q) ==> q < self.nfa@.states.len(),
    {
        let ghost nfa = self.nfa@;
        let ghost s = self.input_str_vec@;
        let ghost pos = self.str_pos as int;
        let ghost init = states@;
        let ghost cl = closure(nfa, s, pos, init);
        let n_states = self.nfa.states.len();
        let ghost n = nfa.states.len();
        assert(n == n_states);
        let mut stack: Vec<usize> = elements(states);
        let mut visited: HashSet<usize> = HashSet::new();
        let mut next_state_set: HashSet<usize> = HashSet::new();
        let mut k: usize = 0;
        while k < stack.len()
            invariant
                k <= stack@.len(),
                stack@.to_set() == init,
                visited@ == stack@.take(k as int).to_set(),
                next_state_set@ == visited@,
            decreases stack@.len() - k,
        {
            visited.insert(stack[k]);
            next_state_set.insert(stack[k]);
            assert(stack@.take(k + 1) =~= stack@.take(k as int).push(stack@[k as int]));
            assert(stack@.take(k + 1).to_set() =~= stack@.take(k as int).to_set().insert(stack@[k as int]));
            k = k + 1;
        }
        assert(stack@.take(stack@.len() as int) =~= stack@);
        proof {
            assert forall|x: usize| init.contains(x) implies cl.contains(x) by {
                lemma_closure_init(nfa, s, pos, init, x);
            }
            vstd::set_lib::lemma_len_subset(visited@, Set::<usize>::range(0, n_states));
        }
        while stack.len() > 0
            invariant
                self.nfa@ == nfa,
                nfa_wf(nfa),
                n == nfa.states.len(),
                n == n_states,
                self.input_str_vec@ == s,
                self.str_pos as int == pos,
                pos <= s.len(),
                cl == closure(nfa, s, pos, init),
                s.len() > 0 || forall|q: usize| #[trigger] cl.contains(q) && q < n ==> !has_boundary_edge(nfa.states[q as int]),
                init.subset_of(visited@),
                visited@.subset_of(cl),
                next_state_set@ == visited@,
                visited@.subset_of(Set::<usize>::range(0, n_states)),
                visited@.finite(),
                forall|j: int| 0 <= j < stack@.len() ==> visited@.contains(#[trigger] stack@[j]),
                forall|q: usize, x: usize| visited@.contains(q) && !stack@.contains(q) && #[trigger] eps_next(nfa, s, pos, q, x)
                    ==> visited@.contains(x),
            decreases n - visited@.len(), stack@.len(),
        {
            proof {
                vstd::set_lib::lemma_len_subset(visited@, Set::<usize>::range(0, n_states));
            }
            let ghost visited0 = visited@;
            let ghost stack0 = stack@;
            let current_state = stack.pop().unwrap();
            assert(stack0[stack0.len() - 1] == current_state);
            assert(visited@.contains(current_state));
            assert(cl.contains(current_state));
            let (first, second): (Option<(usize, EpsilonCondition)>, Option<(usize, EpsilonCondition)>) = match &self.nfa.states[current_state] {
                State::Single(Transition::Epsilon(next, condition)) => (Some((*next, *condition)), None),
                State::Split(transition_1, transition_2) => {
                    let a = match transition_1 {
                        Transition::Epsilon(next, condition) => Some((*next, *condition)),
                        _ => None,
                    };
                    let b = match transition_2 {
                        Transition::Epsilon(next, condition) => Some((*next, *condition)),
                        _ => None,
                    };
                    (a, b)
                },
                _ => (None, None),
            };
            assert(targets_below(nfa.states[current_state as int], n));
            if let Some((next, condition)) = first {
                if !visited.contains(&next) {
                    if self.epsilon_condition(&condition) {
                        proof {
                            lemma_closure_step(nfa, s, pos, init, current_state, next);
                        }
                        stack.push(next);
                        next_state_set.insert(next);
                        visited.insert(next);
                    }
                }
            }
            if let Some((next, condition)) = second {
                if !visited.contains(&next) {
                    if self.epsilon_condition(&condition) {
                        proof {
                            lemma_closure_step(nfa, s, pos, init, current_state, next);
                        }
                        stack.push(next);
                        next_state_set.insert(next);
                        visited.insert(next);
                    }
                }
            }
            proof {
                assert forall|j: int| 0 <= j < stack@.len() implies visited@.contains(#[trigger] stack@[j]) by {
                    if j < stack0.len() - 1 {
                        assert(stack@[j] == stack0[j]);
                    }
                }
                assert forall|q: usize, x: usize| visited@.contains(q) && !stack@.contains(q) && #[trigger] eps_next(nfa, s, pos, q, x)
                    implies visited@.contains(x) by {
                    if q != current_state {
                        if stack0.contains(q) {
                            let j = choose|j: int| 0 <= j < stack0.len() && stack0[j] == q;
                            if j < stack0.len() - 1 {
                                assert(stack@[j] == q);
                            }
                        }
                        if !visited0.contains(q) {
                            assert(stack@.contains(q)) by {
                                assert(stack@[stack@.len() - 1] == q || stack@[stack@.len() - 2] == q);
                            }
                        }
                    }
                }
                vstd::set_lib::lemma_len_subset(visited@, Set::<usize>::range(0, n_states));
            }
        }
        proof {
            lemma_closure_least(nfa, s, pos, init, visited@);
            assert(visited@ =~= cl);
        }
        next_state_set
    }

    fn epsilon_condition(&self, condition: &EpsilonCondition) -> (res: bool)
        requires
            self.str_pos <= self.input_str_vec@.len(),
            self.input_str_vec@.len() > 0 || !is_boundary_condition(*condition),
        ensures
            res == condition_holds(*condition, self.input_str_vec@, self.str_pos as int),
    {
        match condition {
            EpsilonCondition::Unconditional => true,
            EpsilonCondition::StartAnchor => self.str_pos == 0,
            EpsilonCondition::EndAnchor => self.str_pos == self.input_str_vec.len() - 1,
            EpsilonCondition::WordBoundary => self.is_word_boundary(&self.str_pos, &self.input_str_vec),
            EpsilonCondition::NonWordBoundary => !self.is_word_boundary(&self.str_pos, &self.input_str_vec),
        }
    }

    fn is_word(&self, c: char) -> (res: bool)
        ensures
            res == (crate::matcher::spec_is_ascii_alphabetic(c) || c == '_'),
    {
        crate::matcher::is_ascii_alphabetic(c) || c == '_'
    }

    fn is_digit(&self, c: char) -> (res: bool)
        ensures
            res == crate::matcher::spec_is_ascii_digit(c),
    {
        crate::matcher::is_ascii_digit(c)
    }

    fn is_word_boundary(&self, str_pos: &usize, input: &Vec<char>) -> (res: bool)
        requires
            *str_pos <= input@.len(),
            input@.len() > 0,
        ensures
            res == word_boundary(input@, *str_pos as int),
    {
        let left = if *str_pos == 0 {
            false
        } else {
            self.is_word(input[*str_pos - 1]) || self.is_digit(input[*str_pos - 1])
        };
        let right = if *str_pos >= input.len() - 1 {
            false
        } else {
            self.is_word(input[*str_pos + 1]) || self.is_digit(input[*str_pos + 1])
        };
        left != right
    }
}

/// A word boundary is decided by the same characters that `\w` accepts: the
/// ASCII letters of either case, the ASCII digits and `_`. Position `pos` is a
/// boundary when exactly one of the characters just before and just after it
/// (none before the start, none from the last character on) is such a character.
pub proof fn lemma_word_boundary_meaning(s: Seq<char>, pos: int, c: char)
    requires
        0 <= pos <= s.len(),
    ensures
        is_word_char(c) == crate::matcher::class_matches(c, crate::types::token_types::CharClassType::Word),
        is_word_char(c) == (('a' <= c && c <= 'z') || ('A' <= c && c <= 'Z') || ('0' <= c && c <= '9') || c == '_'),
        word_boundary(s, pos) == ((pos > 0 && crate::matcher::class_matches(
            s[pos - 1],
            crate::types::token_types::CharClassType::Word,
        )) != (pos + 1 < s.len() && crate::matcher::class_matches(
            s[pos + 1],
            crate::types::token_types::CharClassType::Word,
        ))),
{
    crate::matcher::lemma_class_meaning(c, crate::types::token_types::CharClassType::Word);
    if pos > 0 {
        crate::matcher::lemma_class_meaning(s[pos - 1], crate::types::token_types::CharClassType::Word);
    }
    if pos + 1 < s.len() {
        crate::matcher::lemma_class_meaning(s[pos + 1], crate::types::token_types::CharClassType::Word);
    }
}

// ---------------------------------------------------------------------------
// `b?` accepts what `b` accepts, and the empty text.
// ---------------------------------------------------------------------------

/// Whether every state of `x` is below `l`.
pub open spec fn all_below(x: Set<usize>, l: int) -> bool {
    forall|q: usize| x.contains(q) ==> q < l
}

/// `x` with the state `e` added where it holds `f1`.
pub open spec fn with_end(x: Set<usize>, f1: usize, e: usize) -> Set<usize> {
    if x.contains(f1) {
        x.insert(e)
    } else {
        x
    }
}

/// How the automaton `a` of `b?` relates to the automaton `b`: it has the
/// states of `b`, where the accepting state `f1` of `b` moves on to a new
/// accepting state `l + 1`, and a new start `l` that splits to `b` or past it.
pub open spec fn optional_pair(a: NFAView, b: NFAView, f1: usize, l: int) -> bool {
    &&& b.states.len() == l
    &&& a.states.len() == l + 2
    &&& l + 1 <= usize::MAX
    &&& f1 < l
    &&& b.states[f1 as int] is Match
    &&& a.states[f1 as int] == StateView::Single(TransitionView::Epsilon((l + 1) as usize, EpsilonCondition::Unconditional))
    &&& a.states[l] == StateView::Split(
        TransitionView::Epsilon(b.start_state, EpsilonCondition::Unconditional),
        TransitionView::Epsilon(f1, EpsilonCondition::Unconditional),
    )
    &&& a.states[l + 1] is Match
    &&& a.start_state == l
    &&& b.start_state < l
    &&& forall|q: int| 0 <= q < l && q != f1 ==> #[trigger] a.states[q] == b.states[q]
    &&& forall|q: usize, x: usize| q < l && #[trigger] crate::engine_nfa::nfa_builder::succ(b.states[q as int], x) ==> x < l
}

proof fn lemma_eps_succ(nfa: NFAView, s: Seq<char>, pos: int, q: usize, x: usize)
    requires
        eps_next(nfa, s, pos, q, x),
    ensures
        crate::engine_nfa::nfa_builder::succ(nfa.states[q as int], x),
{
}

proof fn lemma_closure_below(b: NFAView, s: Seq<char>, pos: int, x: Set<usize>, l: int)
    requires
        all_below(x, l),
        b.states.len() == l,
        forall|q: usize, y: usize| q < l && #[trigger] crate::engine_nfa::nfa_builder::succ(b.states[q as int], y) ==> y < l,
    ensures
        all_below(closure(b, s, pos, x), l),
{
    let t = Set::new(|q: usize| q < l);
    assert forall|q: usize, y: usize| t.contains(q) && #[trigger] eps_next(b, s, pos, q, y) implies t.contains(y) by {
        lemma_eps_succ(b, s, pos, q, y);
    }
    lemma_closure_least(b, s, pos, x, t);
}

proof fn lemma_closure_b_in_a(a: NFAView, b: NFAView, f1: usize, l: int, s: Seq<char>, pos: int, x: Set<usize>)
    requires
        optional_pair(a, b, f1, l),
        all_below(x, l),
    ensures
        closure(b, s, pos, x).subset_of(closure(a, s, pos, x)),
        closure(b, s, pos, x).contains(f1) ==> closure(a, s, pos, x).contains((l + 1) as usize),
{
    let ca = closure(a, s, pos, x);
    let cb = closure(b, s, pos, x);
    assert forall|q: usize, y: usize| ca.contains(q) && #[trigger] eps_next(b, s, pos, q, y) implies ca.contains(y) by {
        assert(q < l && q != f1);
        assert(a.states[q as int] == b.states[q as int]);
        assert(eps_next(a, s, pos, q, y));
        lemma_closure_step(a, s, pos, x, q, y);
    }
    assert forall|q: usize| x.contains(q) implies ca.contains(q) by {
        lemma_closure_init(a, s, pos, x, q);
    }
    lemma_closure_least(b, s, pos, x, ca);
    if cb.contains(f1) {
        assert(eps_next(a, s, pos, f1, (l + 1) as usize));
        lemma_closure_step(a, s, pos, x, f1, (l + 1) as usize);
    }
}

proof fn lemma_closure_a_in_b(a: NFAView, b: NFAView, f1: usize, l: int, s: Seq<char>, pos: int, x: Set<usize>)
    requires
        optional_pair(a, b, f1, l),
        all_below(x, l),
    ensures
        closure(a, s, pos, x).subset_of(with_end(closure(b, s, pos, x), f1, (l + 1) as usize)),
{
    let e = (l + 1) as usize;
    let cb = closure(b, s, pos, x);
    lemma_closure_below(b, s, pos, x, l);
    let t = with_end(cb, f1, e);
    assert forall|q: usize, y: usize| t.contains(q) && #[trigger] eps_next(a, s, pos, q, y) implies t.contains(y) by {
        if q == e {
            assert(a.states[l + 1] is Match);
        } else if q == f1 {
            assert(y == e);
        } else {
            assert(cb.contains(q));
            assert(q < l);
            assert(a.states[q as int] == b.states[q as int]);
            assert(eps_next(b, s, pos, q, y));
            lemma_closure_step(b, s, pos, x, q, y);
        }
    }
    assert forall|q: usize| x.contains(q) implies t.contains(q) by {
        lemma_closure_init(b, s, pos, x, q);
    }
    lemma_closure_least(a, s, pos, x, t);
}

proof fn lemma_closure_with_end(a: NFAView, b: NFAView, f1: usize, l: int, s: Seq<char>, pos: int, x: Set<usize>)
    requires
        optional_pair(a, b, f1, l),
        all_below(x, l),
    ensures
        closure(a, s, pos, x) == with_end(closure(b, s, pos, x), f1, (l + 1) as usize),
        all_below(closure(b, s, pos, x), l),
{
    lemma_closure_below(b, s, pos, x, l);
    lemma_closure_b_in_a(a, b, f1, l, s, pos, x);
    lemma_closure_a_in_b(a, b, f1, l, s, pos, x);
    assert(closure(a, s, pos, x) =~= with_end(closure(b, s, pos, x), f1, (l + 1) as usize));
}

proof fn lemma_step_same(a: NFAView, b: NFAView, f1: usize, l: int, z: Set<usize>, c: char)
    requires
        optional_pair(a, b, f1, l),
    ensures
        step(a, z, c) == step(b, z, c),
        all_below(step(b, z, c), l),
{
    assert forall|q: usize, y: usize| char_next(a, q, c, y) == char_next(b, q, c, y) by {
        if q < l && q != f1 {
            assert(a.states[q as int] == b.states[q as int]);
        }
    }
    assert(step(a, z, c) =~= step(b, z, c));
    assert forall|y: usize| step(b, z, c).contains(y) implies y < l by {
        let q = choose|q: usize| z.contains(q) && #[trigger] char_next(b, q, c, y);
        assert(crate::engine_nfa::nfa_builder::succ(b.states[q as int], y));
    }
}

proof fn lemma_match_with_end(a: NFAView, b: NFAView, f1: usize, l: int, x: Set<usize>)
    requires
        optional_pair(a, b, f1, l),
        all_below(x, l),
    ensures
        has_match(a, with_end(x, f1, (l + 1) as usize)) == has_match(b, x),
{
    let e = (l + 1) as usize;
    let y = with_end(x, f1, e);
    if has_match(b, x) {
        let q = choose|q: usize| x.contains(q) && q < b.states.len() && #[trigger] b.states[q as int] is Match;
        if q == f1 {
            assert(y.contains(e) && a.states[e as int] is Match);
        } else {
            assert(a.states[q as int] == b.states[q as int]);
            assert(y.contains(q) && a.states[q as int] is Match);
        }
    }
    if has_match(a, y) {
        let q = choose|q: usize| y.contains(q) && q < a.states.len() && #[trigger] a.states[q as int] is Match;
        if q == e {
            assert(x.contains(f1) && b.states[f1 as int] is Match);
        } else {
            assert(x.contains(q));
            assert(q != f1);
            assert(a.states[q as int] == b.states[q as int]);
        }
    }
}

proof fn lemma_sim_with_end(a: NFAView, b: NFAView, f1: usize, l: int, s: Seq<char>, pos: int, x: Set<usize>)
    requires
        optional_pair(a, b, f1, l),
        all_below(x, l),
    ensures
        sim_from(a, s, false, pos, with_end(x, f1, (l + 1) as usize)).0 == sim_from(b, s, false, pos, x).0,
    decreases s.len() - pos,
{
    let e = (l + 1) as usize;
    let y = with_end(x, f1, e);
    if pos >= s.len() {
        lemma_match_with_end(a, b, f1, l, x);
    } else {
        assert(y.is_empty() == x.is_empty()) by {
            if !x.is_empty() {
                let q = choose|q: usize| x.contains(q);
                assert(y.contains(q));
            }
            if !y.is_empty() {
                let q = choose|q: usize| y.contains(q);
                if q == e {
                    assert(x.contains(f1));
                }
            }
        }
        if !x.is_empty() {
            lemma_step_same(a, b, f1, l, y, s[pos]);
            lemma_step_same(a, b, f1, l, x, s[pos]);
            assert(step(b, y, s[pos]) =~= step(b, x, s[pos])) by {
                assert forall|q: usize, z: usize| #[trigger] char_next(b, q, s[pos], z) implies q < l by {
                }
            }
            let st = step(b, x, s[pos]);
            lemma_closure_with_end(a, b, f1, l, s, pos, st);
            lemma_sim_with_end(a, b, f1, l, s, pos + 1, closure(b, s, pos, st));
        }
    }
}

/// An optional part accepts its operand at most once: the automaton of `b?`
/// accepts a whole text exactly when the text is empty or the automaton of
/// `b` accepts it.
pub proof fn lemma_optional_accepts(b: NodeView, s: Seq<char>)
    requires
        crate::engine_nfa::nfa_builder::repetitions_ordered(b),
        crate::engine_nfa::nfa_builder::walk_bound(b) + 2 <= usize::MAX,
    ensures
        crate::engine_nfa::nfa_builder::sp_compile(Seq::empty(), NodeView::Quantifier(Box::new(b), QuantifierType::ZeroOrOne)) matches Some(
            na,
        ) && crate::engine_nfa::nfa_builder::sp_compile(Seq::empty(), b) matches Some(nb) && spec_simulate(
            na,
            s,
            SearchType::Fullstring,
            0,
        ) == (s.len() == 0 || spec_simulate(nb, s, SearchType::Fullstring, 0)),
{
    let st0 = Seq::<StateView>::empty();
    crate::engine_nfa::nfa_builder::lemma_walk_good(st0, b);
    let (st1, f) = crate::engine_nfa::nfa_builder::sp_walk(st0, b)->0;
    let l = st1.len() as int;
    let e = (l + 1) as usize;
    let nb = NFAView { states: st1.update(f.1 as int, StateView::Match), start_state: f.0, end_state: f.1 };
    let first = StateView::Split(
        TransitionView::Epsilon(f.0, EpsilonCondition::Unconditional),
        TransitionView::Epsilon(f.1, EpsilonCondition::Unconditional),
    );
    let sta = st1.push(first).push(crate::engine_nfa::nfa_builder::dangling()).update(
        f.1 as int,
        StateView::Single(TransitionView::Epsilon(e, EpsilonCondition::Unconditional)),
    );
    let na = NFAView { states: sta.update(l + 1, StateView::Match), start_state: l as usize, end_state: e };
    assert(crate::engine_nfa::nfa_builder::sp_compile(st0, b) == Some(nb));
    assert(crate::engine_nfa::nfa_builder::sp_walk(st0, NodeView::Quantifier(Box::new(b), QuantifierType::ZeroOrOne))
        == Some((sta, (l as usize, e))));
    assert(crate::engine_nfa::nfa_builder::sp_compile(
        st0,
        NodeView::Quantifier(Box::new(b), QuantifierType::ZeroOrOne),
    ) == Some(na));
    assert forall|q: int| 0 <= q < l && q != f.1 implies #[trigger] na.states[q] == nb.states[q] by {
    }
    assert forall|q: usize, x: usize| q < l && #[trigger] crate::engine_nfa::nfa_builder::succ(nb.states[q as int], x)
        implies x < l by {
        assert(nb.states[q as int] == st1[q as int]);
    }
    assert(optional_pair(na, nb, f.1, l));
    // the start of `b?` reaches the start of `b` and, past it, the new end
    let two = set![f.0, f.1];
    let init = set![l as usize];
    let ca = closure(na, s, 0, init);
    let ct = closure(na, s, 0, two);
    lemma_closure_with_end(na, nb, f.1, l, s, 0, two);
    let w = closure(nb, s, 0, two);
    assert(ca =~= ct.insert(l as usize)) by {
        lemma_closure_init(na, s, 0, init, l as usize);
        assert(eps_next(na, s, 0, l as usize, f.0));
        assert(eps_next(na, s, 0, l as usize, f.1));
        lemma_closure_step(na, s, 0, init, l as usize, f.0);
        lemma_closure_step(na, s, 0, init, l as usize, f.1);
        assert forall|q: usize, z: usize| ca.contains(q) && #[trigger] eps_next(na, s, 0, q, z) implies ca.contains(z) by {
            lemma_closure_step(na, s, 0, init, q, z);
        }
        lemma_closure_least(na, s, 0, two, ca);
        let t = ct.insert(l as usize);
        assert forall|q: usize, z: usize| t.contains(q) && #[trigger] eps_next(na, s, 0, q, z) implies t.contains(z) by {
            if q == l {
                lemma_closure_init(na, s, 0, two, z);
            } else {
                lemma_closure_step(na, s, 0, two, q, z);
            }
        }
        lemma_closure_least(na, s, 0, init, t);
    }
    // the start of `b` alone
    let cb = closure(nb, s, 0, set![f.0]);
    assert(w =~= cb.insert(f.1)) by {
        lemma_closure_init(nb, s, 0, two, f.0);
        lemma_closure_init(nb, s, 0, two, f.1);
        assert forall|q: usize, z: usize| w.contains(q) && #[trigger] eps_next(nb, s, 0, q, z) implies w.contains(z) by {
            lemma_closure_step(nb, s, 0, two, q, z);
        }
        lemma_closure_least(nb, s, 0, set![f.0], w);
        let t = cb.insert(f.1);
        assert forall|q: usize, z: usize| t.contains(q) && #[trigger] eps_next(nb, s, 0, q, z) implies t.contains(z) by {
            if q != f.1 {
                lemma_closure_step(nb, s, 0, set![f.0], q, z);
            }
        }
        lemma_closure_init(nb, s, 0, set![f.0], f.0);
        lemma_closure_least(nb, s, 0, two, t);
    }
    if s.len() == 0 {
        assert(ca.contains(e) && na.states[e as int] is Match);
    } else {
        lemma_closure_init(nb, s, 0, set![f.0], f.0);
        assert(ca.contains(l as usize));
        lemma_step_same(na, nb, f.1, l, ca, s[0]);
        lemma_step_same(na, nb, f.1, l, cb, s[0]);
        assert(step(nb, ca, s[0]) =~= step(nb, cb, s[0])) by {
            assert forall|q: usize, z: usize| #[trigger] char_next(nb, q, s[0], z) implies q < l && q != f.1 by {
            }
        }
        let st = step(nb, cb, s[0]);
        lemma_closure_with_end(na, nb, f.1, l, s, 0, st);
        lemma_sim_with_end(na, nb, f.1, l, s, 1, closure(nb, s, 0, st));
    }
}

} // verus!
