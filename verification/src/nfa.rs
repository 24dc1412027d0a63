use crate::ast::{
    bounds_ordered, copies_allowed, expr_wf, lemma_concat_unfold, lemma_power_unfold, matches_concat, matches_expr,
    matches_power, Expr, ExprKind,
};
use crate::charset::{is_scalar, CharSet};
use crate::config::{alphabet_has, Alphabet};
use vstd::prelude::*;

pub mod walk;

use walk::{
    alt_ok, any_lang, class_lang, concat_lang, eps_lang, fragment, lemma_alt, lemma_alt_extend, lemma_concat_step,
    lemma_eps_pair, lemma_fragment_agree, lemma_fragment_lang, lemma_leaf, lemma_optional_step, lemma_rep_add,
    lemma_rep_unfold, lemma_run_walk, lemma_star_step, lemma_walk_within_all, no_edges, optional_lang, reads, rep,
    star_lang, walk, within, word, Move,
};

verus! {

/// A character-class edge to `target`.
#[derive(Clone, Debug)]
pub struct Transition {
    pub set: CharSet,
    pub target: usize,
}

#[derive(Clone, Debug)]
pub struct State {
    pub epsilon: Vec<usize>,
    pub transitions: Vec<Transition>,
}

/// A Thompson ε-NFA with one start and one accept state.
#[derive(Clone, Debug)]
pub struct Nfa {
    pub states: Vec<State>,
    pub start: usize,
    pub accept: usize,
}

/// A strictly increasing list of state ids (the canonical subset form).
pub open spec fn sorted_ids(v: Seq<usize>) -> bool {
    forall|i: int, j: int| 0 <= i < j < v.len() ==> #[trigger] v[i] < #[trigger] v[j]
}

/// Every state list entry and edge target names an existing state.
pub open spec fn states_wf(states: Seq<State>) -> bool {
    forall|q: int| 0 <= q < states.len() ==> #[trigger] state_wf(states[q], states.len() as int)
}

pub open spec fn state_wf(s: State, n: int) -> bool {
    &&& forall|k: int| 0 <= k < s.epsilon@.len() ==> #[trigger] s.epsilon@[k] < n
    &&& forall|k: int| 0 <= k < s.transitions@.len() ==> #[trigger] s.transitions@[k].target < n
}

/// Every edge class holds only Unicode scalar values.
pub open spec fn states_scalar(states: Seq<State>) -> bool {
    forall|q: int, k: int, v: int|
        0 <= q < states.len() && 0 <= k < states[q].transitions@.len() && #[trigger] states[q].transitions@[k].set.has(v)
            ==> is_scalar(v)
}

impl Nfa {
    pub open spec fn wf(&self) -> bool {
        &&& states_wf(self.states@)
        &&& self.start < self.states@.len()
        &&& self.accept < self.states@.len()
    }

    /// `t` is closed under ε-edges.
    pub open spec fn eps_closed(&self, t: Set<usize>) -> bool {
        forall|q: usize, k: int|
            t.contains(q) && q < self.states@.len() && 0 <= k < self.states@[q as int].epsilon@.len()
                ==> t.contains(#[trigger] self.states@[q as int].epsilon@[k])
    }

    /// `x` lies in every ε-closed superset of `init`.
    pub open spec fn in_closure(&self, init: Set<usize>, x: usize) -> bool {
        forall|t: Set<usize>| #[trigger] self.eps_closed(t) && init.subset_of(t) ==> t.contains(x)
    }

    /// The ε-closure of `init`: the least ε-closed superset.
    pub open spec fn closure(&self, init: Set<usize>) -> Set<usize> {
        Set::new(|x: usize| self.in_closure(init, x))
    }

    /// The states that some edge labelled with `c` reaches from `s`.
    pub open spec fn moves(&self, s: Set<usize>, c: char) -> Set<usize> {
        Set::new(
            |x: usize|
                exists|q: usize, k: int|
                    s.contains(q) && q < self.states@.len() && 0 <= k < self.states@[q as int].transitions@.len()
                        && #[trigger] self.states@[q as int].transitions@[k].target == x
                        && self.states@[q as int].transitions@[k].set.has(c as int),
        )
    }

    /// One subset-construction step on `c`.
    pub open spec fn step_set(&self, s: Set<usize>, c: char) -> Set<usize> {
        self.closure(self.moves(s, c))
    }

    /// The subset reached after reading `w` from the start.
    pub open spec fn run(&self, w: Seq<char>) -> Set<usize>
        decreases w.len(),
    {
        if w.len() == 0 {
            self.closure(set![self.start])
        } else {
            self.step_set(self.run(w.drop_last()), w.last())
        }
    }

    /// The automaton accepts the whole of `w`.
    pub open spec fn accepts(&self, w: Seq<char>) -> bool {
        self.run(w).contains(self.accept)
    }

    /// Every edge class holds only scalar values.
    pub open spec fn scalar_edges(&self) -> bool {
        states_scalar(self.states@)
    }

    /// Thompson construction of `expr`: an automaton that accepts exactly
    /// the strings the expression matches (when its repetition bounds are
    /// ordered, as the parser guarantees).
    pub fn from_expr(expr: &Expr) -> (r: Self)
        ensures
            r.wf(),
            forall|alphabet: Alphabet, max_repeat: usize| expr_wf(*expr, alphabet, max_repeat) ==> r.scalar_edges(),
            bounds_ordered(*expr) ==> forall|w: Seq<char>| #[trigger] r.accepts(w) == matches_expr(*expr, w),
    {
        let mut builder = Builder { states: Vec::new() };
        let ghost empty = builder;
        let fragment = builder.build(expr, Ghost(scalar_expr(*expr)), Ghost(bounds_ordered(*expr)));
        let r = Self { states: builder.states, start: fragment.start, accept: fragment.end };
        proof {
            assert forall|alphabet: Alphabet, max_repeat: usize| expr_wf(*expr, alphabet, max_repeat) implies r.scalar_edges() by {
                lemma_wf_expr_is_scalar(*expr, alphabet, max_repeat);
            }
            if bounds_ordered(*expr) {
                lemma_thompson(r, *expr);
            }
        }
        r
    }

    /// The ε-closure of the start state.
    pub fn start_subset(&self) -> (r: Vec<usize>)
        requires
            self.wf(),
        ensures
            sorted_ids(r@),
            r@.to_set() == self.run(Seq::empty()),
            forall|i: int| 0 <= i < r@.len() ==> #[trigger] r@[i] < self.states@.len(),
    {
        let mut initial = Vec::new();
        initial.push(self.start);
        proof {
            assert(initial@.to_set() =~= set![self.start]) by {
                assert forall|x: usize| initial@.to_set().contains(x) <==> set![self.start].contains(x) by {
                    if x == self.start {
                        assert(initial@[0] == x);
                    }
                }
            }
        }
        self.epsilon_closure(initial)
    }

    /// The subset reached from `subset` on `ch`.
    pub fn step(&self, subset: &[usize], ch: char) -> (r: Vec<usize>)
        requires
            self.wf(),
            forall|i: int| 0 <= i < subset@.len() ==> #[trigger] subset@[i] < self.states@.len(),
        ensures
            sorted_ids(r@),
            r@.to_set() == self.step_set(subset@.to_set(), ch),
            forall|i: int| 0 <= i < r@.len() ==> #[trigger] r@[i] < self.states@.len(),
    {
        let n = self.states.len();
        let mut seen: Vec<bool> = Vec::new();
        let mut z: usize = 0;
        while z < n
            invariant
                z <= n,
                seen@.len() == z,
                forall|i: int| 0 <= i < z ==> !(#[trigger] seen@[i]),
            decreases n - z,
        {
            seen.push(false);
            z += 1;
        }
        let mut targets: Vec<usize> = Vec::new();
        let mut idx: usize = 0;
        let ghost goal = self.moves(subset@.to_set(), ch);
        while idx < subset.len()
            invariant
                self.wf(),
                n == self.states@.len(),
                idx <= subset@.len(),
                seen@.len() == n,
                forall|i: int| 0 <= i < subset@.len() ==> #[trigger] subset@[i] < n,
                forall|i: int| 0 <= i < targets@.len() ==> #[trigger] targets@[i] < n,
                goal == self.moves(subset@.to_set(), ch),
                forall|x: usize| x < n ==> (seen@[x as int] <==> targets@.contains(x)),
                forall|x: usize| #[trigger] targets@.contains(x) ==> goal.contains(x),
                forall|j: int, k: int|
                    0 <= j < idx && 0 <= k < self.states@[subset@[j] as int].transitions@.len()
                        && #[trigger] self.states@[subset@[j] as int].transitions@[k].set.has(ch as int)
                        ==> targets@.contains(self.states@[subset@[j] as int].transitions@[k].target),
            decreases subset@.len() - idx,
        {
            let state_id = subset[idx];
            let transitions = &self.states[state_id].transitions;
            let mut k: usize = 0;
            proof {
                assert(state_wf(self.states@[state_id as int], n as int));
            }
            while k < transitions.len()
                invariant
                    self.wf(),
                    n == self.states@.len(),
                    idx < subset@.len(),
                    state_id == subset@[idx as int],
                    state_id < n,
                    *transitions == self.states@[state_id as int].transitions,
                    k <= transitions@.len(),
                    seen@.len() == n,
                    forall|i: int| 0 <= i < subset@.len() ==> #[trigger] subset@[i] < n,
                    forall|i: int| 0 <= i < targets@.len() ==> #[trigger] targets@[i] < n,
                    goal == self.moves(subset@.to_set(), ch),
                    forall|x: usize| x < n ==> (seen@[x as int] <==> targets@.contains(x)),
                    forall|x: usize| #[trigger] targets@.contains(x) ==> goal.contains(x),
                    forall|j: int, kk: int|
                        0 <= j < idx && 0 <= kk < self.states@[subset@[j] as int].transitions@.len()
                            && #[trigger] self.states@[subset@[j] as int].transitions@[kk].set.has(ch as int)
                            ==> targets@.contains(self.states@[subset@[j] as int].transitions@[kk].target),
                    forall|kk: int|
                        0 <= kk < k && #[trigger] transitions@[kk].set.has(ch as int)
                            ==> targets@.contains(transitions@[kk].target),
                decreases transitions@.len() - k,
            {
                let target = transitions[k].target;
                proof {
                    assert(state_wf(self.states@[state_id as int], n as int));
                    assert(target < n);
                }
                if transitions[k].set.contains(ch) && !seen[target] {
                    let ghost before = targets@;
                    seen.set(target, true);
                    targets.push(target);
                    proof {
                        assert(subset@.to_set().contains(state_id));
                        assert(self.states@[state_id as int].transitions@[k as int].target == target);
                        assert(self.states@[state_id as int].transitions@[k as int].set.has(ch as int));
                        assert(goal.contains(target));
                        assert forall|x: usize| #[trigger] targets@.contains(x) implies goal.contains(x) by {
                            if x != target {
                                let j = choose|j: int| 0 <= j < targets@.len() && targets@[j] == x;
                                assert(before[j] == x);
                                assert(before.contains(x));
                            }
                        }
                        assert forall|x: usize| x < n implies (seen@[x as int] <==> targets@.contains(x)) by {
                            if x != target {
                                if targets@.contains(x) {
                                    let j = choose|j: int| 0 <= j < targets@.len() && targets@[j] == x;
                                    assert(before[j] == x);
                                }
                                if before.contains(x) {
                                    let j = choose|j: int| 0 <= j < before.len() && before[j] == x;
                                    assert(targets@[j] == x);
                                }
                            } else {
                                assert(targets@[targets@.len() - 1] == x);
                            }
                        }
                        assert forall|j: int, kk: int|
                            0 <= j < idx && 0 <= kk < self.states@[subset@[j] as int].transitions@.len()
                                && #[trigger] self.states@[subset@[j] as int].transitions@[kk].set.has(ch as int)
                                implies targets@.contains(self.states@[subset@[j] as int].transitions@[kk].target) by {
                            let x = self.states@[subset@[j] as int].transitions@[kk].target;
                            assert(before.contains(x));
                            let i = choose|i: int| 0 <= i < before.len() && before[i] == x;
                            assert(targets@[i] == x);
                        }
                        assert forall|kk: int|
                            0 <= kk <= k && #[trigger] transitions@[kk].set.has(ch as int)
                                implies targets@.contains(transitions@[kk].target) by {
                            let x = transitions@[kk].target;
                            if kk < k {
                                assert(before.contains(x));
                                let i = choose|i: int| 0 <= i < before.len() && before[i] == x;
                                assert(targets@[i] == x);
                            } else {
                                assert(targets@[targets@.len() - 1] == x);
                            }
                        }
                    }
                } else {
                    proof {
                        assert forall|kk: int|
                            0 <= kk <= k && #[trigger] transitions@[kk].set.has(ch as int)
                                implies targets@.contains(transitions@[kk].target) by {
                            if kk == k {
                                assert(seen@[target as int]);
                            }
                        }
                    }
                }
                k += 1;
            }
            idx += 1;
        }
        proof {
            assert forall|x: usize| goal.contains(x) implies #[trigger] targets@.to_set().contains(x) by {
                let (q, k) = choose|q: usize, k: int|
                    subset@.to_set().contains(q) && q < self.states@.len() && 0 <= k
                        < self.states@[q as int].transitions@.len() && #[trigger] self.states@[q as int].transitions@[k].target
                        == x && self.states@[q as int].transitions@[k].set.has(ch as int);
                let j = choose|j: int| 0 <= j < subset@.len() && subset@[j] == q;
                assert(self.states@[subset@[j] as int].transitions@[k].set.has(ch as int));
                assert(targets@.contains(x));
            }
            assert(targets@.to_set() =~= goal);
        }
        self.epsilon_closure(targets)
    }

    /// The subset (sorted, duplicate-free) holds the accept state.
    pub fn is_accepting(&self, subset: &[usize]) -> (r: bool)
        requires
            sorted_ids(subset@),
        ensures
            r == subset@.to_set().contains(self.accept),
    {
        let mut lo: usize = 0;
        let mut hi: usize = subset.len();
        while lo < hi
            invariant
                sorted_ids(subset@),
                lo <= hi <= subset@.len(),
                forall|i: int| 0 <= i < lo ==> #[trigger] subset@[i] < self.accept,
                forall|i: int| hi <= i < subset@.len() ==> #[trigger] subset@[i] >= self.accept,
            decreases hi - lo,
        {
            let mid = lo + (hi - lo) / 2;
            if subset[mid] < self.accept {
                proof {
                    assert forall|i: int| 0 <= i <= mid implies #[trigger] subset@[i] < self.accept by {
                        if i < mid {
                            assert(subset@[i] < subset@[mid as int]);
                        }
                    }
                }
                lo = mid + 1;
            } else {
                proof {
                    assert forall|i: int| mid <= i < subset@.len() implies #[trigger] subset@[i] >= self.accept by {
                        if i > mid {
                            assert(subset@[mid as int] < subset@[i]);
                        }
                    }
                }
                hi = mid;
            }
        }
        let found = lo < subset.len() && subset[lo] == self.accept;
        proof {
            if found {
                assert(subset@.to_set().contains(self.accept));
            } else if subset@.to_set().contains(self.accept) {
                let i = choose|i: int| 0 <= i < subset@.len() && subset@[i] == self.accept;
                if i > lo {
                    assert(subset@[lo as int] < subset@[i]);
                }
            }
        }
        found
    }

    /// The edge classes leaving the states of `subset`, state by state.
    pub fn outgoing_sets<'a>(&'a self, subset: &[usize]) -> (r: Vec<&'a CharSet>)
        requires
            self.wf(),
            forall|i: int| 0 <= i < subset@.len() ==> #[trigger] subset@[i] < self.states@.len(),
        ensures
            deref_sets(r@) == subset_sets(self.states@, subset@),
    {
        let mut out: Vec<&'a CharSet> = Vec::new();
        let mut idx: usize = 0;
        while idx < subset.len()
            invariant
                self.wf(),
                idx <= subset@.len(),
                forall|i: int| 0 <= i < subset@.len() ==> #[trigger] subset@[i] < self.states@.len(),
                deref_sets(out@) == subset_sets(self.states@, subset@.subrange(0, idx as int)),
            decreases subset@.len() - idx,
        {
            let state_id = subset[idx];
            let transitions = &self.states[state_id].transitions;
            let ghost prefix = deref_sets(out@);
            let mut t: usize = 0;
            while t < transitions.len()
                invariant
                    *transitions == self.states@[state_id as int].transitions,
                    t <= transitions@.len(),
                    deref_sets(out@) == prefix + state_sets(self.states@, state_id as int).subrange(0, t as int),
                decreases transitions@.len() - t,
            {
                let ghost before = out@;
                out.push(&transitions[t].set);
                proof {
                    assert(deref_sets(out@) =~= deref_sets(before).push(transitions@[t as int].set));
                    assert(state_sets(self.states@, state_id as int).subrange(0, t + 1) =~= state_sets(
                        self.states@,
                        state_id as int,
                    ).subrange(0, t as int).push(transitions@[t as int].set));
                    assert(deref_sets(out@) =~= prefix + state_sets(self.states@, state_id as int).subrange(0, t + 1));
                }
                t += 1;
            }
            proof {
                let ids = subset@.subrange(0, idx + 1);
                assert(ids.drop_last() =~= subset@.subrange(0, idx as int));
                assert(ids.last() == state_id);
                assert(state_sets(self.states@, state_id as int).subrange(0, t as int) =~= state_sets(
                    self.states@,
                    state_id as int,
                ));
            }
            idx += 1;
        }
        proof {
            assert(subset@.subrange(0, subset@.len() as int) =~= subset@);
        }
        out
    }

    /// The automaton accepts the whole of `input`.
    pub fn matches(&self, input: &str) -> (r: bool)
        requires
            self.wf(),
        ensures
            r == self.accepts(input@),
    {
        let chars = str_chars(input);
        let mut subset = self.start_subset();
        let mut i: usize = 0;
        while i < chars.len()
            invariant
                self.wf(),
                chars@ == input@,
                i <= chars@.len(),
                sorted_ids(subset@),
                forall|j: int| 0 <= j < subset@.len() ==> #[trigger] subset@[j] < self.states@.len(),
                subset@.to_set() == self.run(chars@.subrange(0, i as int)),
            decreases chars@.len() - i,
        {
            let ghost prefix = chars@.subrange(0, i + 1);
            proof {
                assert(prefix.drop_last() =~= chars@.subrange(0, i as int));
            }
            subset = self.step(&subset, chars[i]);
            i += 1;
            if subset.len() == 0 {
                proof {
                    assert(subset@.to_set() =~= Set::<usize>::empty());
                    self.lemma_dead_run_stays_dead(chars@.subrange(0, i as int), chars@.subrange(i as int, chars@.len() as int));
                    assert(chars@.subrange(0, i as int) + chars@.subrange(i as int, chars@.len() as int) =~= input@);
                }
                return false;
            }
        }
        proof {
            assert(chars@.subrange(0, chars@.len() as int) =~= input@);
        }
        self.is_accepting(&subset)
    }

    /// Once no state is left, reading more characters never brings one back.
    pub proof fn lemma_dead_run_stays_dead(&self, w: Seq<char>, rest: Seq<char>)
        requires
            self.run(w) == Set::<usize>::empty(),
        ensures
            self.run(w + rest) == Set::<usize>::empty(),
        decreases rest.len(),
    {
        if rest.len() > 0 {
            self.lemma_dead_run_stays_dead(w, rest.drop_last());
            assert((w + rest).drop_last() =~= w + rest.drop_last());
            self.lemma_step_from_empty((w + rest).last());
        }
        else {
            assert(w + rest =~= w);
        }
    }

    /// No state is reached from the empty subset.
    pub proof fn lemma_step_from_empty(&self, c: char)
        ensures
            self.step_set(Set::<usize>::empty(), c) == Set::<usize>::empty(),
    {
        assert(self.moves(Set::<usize>::empty(), c) =~= Set::<usize>::empty());
        assert(self.eps_closed(Set::<usize>::empty()));
        assert(self.closure(Set::<usize>::empty()) =~= Set::<usize>::empty()) by {
            assert forall|x: usize| !self.closure(Set::<usize>::empty()).contains(x) by {
                assert(self.eps_closed(Set::<usize>::empty()) && Set::<usize>::empty().subset_of(Set::<usize>::empty()));
            }
        }
    }

    /// The ε-closure of `initial`, sorted by state id.
    fn epsilon_closure(&self, initial: Vec<usize>) -> (r: Vec<usize>)
        requires
            self.wf(),
            forall|i: int| 0 <= i < initial@.len() ==> #[trigger] initial@[i] < self.states@.len(),
        ensures
            sorted_ids(r@),
            r@.to_set() == self.closure(initial@.to_set()),
            forall|i: int| 0 <= i < r@.len() ==> #[trigger] r@[i] < self.states@.len(),
    {
        let n = self.states.len();
        let ghost init = initial@.to_set();
        let mut visited: Vec<bool> = Vec::new();
        let mut z: usize = 0;
        while z < n
            invariant
                z <= n,
                visited@.len() == z,
                forall|i: int| 0 <= i < z ==> !(#[trigger] visited@[i]),
            decreases n - z,
        {
            visited.push(false);
            z += 1;
        }
        let mut stack: Vec<usize> = Vec::new();
        let mut idx: usize = 0;
        while idx < initial.len()
            invariant
                self.wf(),
                n == self.states@.len(),
                visited@.len() == n,
                idx <= initial@.len(),
                init == initial@.to_set(),
                forall|i: int| 0 <= i < initial@.len() ==> #[trigger] initial@[i] < n,
                forall|i: int| 0 <= i < idx ==> visited@[#[trigger] initial@[i] as int],
                forall|x: usize| x < n && #[trigger] visited@[x as int] ==> self.in_closure(init, x),
                forall|x: usize| x < n && #[trigger] visited@[x as int] ==> stack@.contains(x),
                forall|i: int| 0 <= i < stack@.len() ==> #[trigger] stack@[i] < n,
                forall|i: int| 0 <= i < stack@.len() ==> visited@[#[trigger] stack@[i] as int],
            decreases initial@.len() - idx,
        {
            let state = initial[idx];
            if !visited[state] {
                let ghost before = stack@;
                visited.set(state, true);
                stack.push(state);
                proof {
                    assert(init.contains(state));
                    assert forall|t: Set<usize>| #[trigger] self.eps_closed(t) && init.subset_of(t) implies t.contains(state) by {}
                    assert forall|i: int| 0 <= i < stack@.len() implies visited@[#[trigger] stack@[i] as int] by {
                        if i < before.len() {
                            assert(stack@[i] == before[i]);
                        }
                    }
                    assert forall|x: usize| x < n && #[trigger] visited@[x as int] implies stack@.contains(x) by {
                        if x != state {
                            assert(before.contains(x));
                            let j = choose|j: int| 0 <= j < before.len() && before[j] == x;
                            assert(stack@[j] == x);
                        } else {
                            assert(stack@[stack@.len() - 1] == x);
                        }
                    }
                }
            }
            idx += 1;
        }
        proof {
            assert forall|x: usize, k: int|
                x < n && visited@[x as int] && !stack@.contains(x) && 0 <= k < self.states@[x as int].epsilon@.len()
                    implies visited@[#[trigger] self.states@[x as int].epsilon@[k] as int] by {
            }
        }
        while stack.len() > 0
            invariant
                self.wf(),
                n == self.states@.len(),
                visited@.len() == n,
                init == initial@.to_set(),
                forall|i: int| 0 <= i < initial@.len() ==> #[trigger] initial@[i] < n,
                forall|i: int| 0 <= i < initial@.len() ==> visited@[#[trigger] initial@[i] as int],
                forall|x: usize| x < n && #[trigger] visited@[x as int] ==> self.in_closure(init, x),
                forall|i: int| 0 <= i < stack@.len() ==> #[trigger] stack@[i] < n,
                forall|i: int| 0 <= i < stack@.len() ==> visited@[#[trigger] stack@[i] as int],
                forall|x: usize, k: int|
                    x < n && visited@[x as int] && !stack@.contains(x) && 0 <= k < self.states@[x as int].epsilon@.len()
                        ==> visited@[#[trigger] self.states@[x as int].epsilon@[k] as int],
            decreases n - count_true(visited@), stack@.len(),
        {
            let ghost before_pop = stack@;
            let state = stack.pop().unwrap();
            proof {
                assert(before_pop =~= stack@.push(state));
                assert forall|x: usize| x != state && !stack@.contains(x) implies !before_pop.contains(x) by {
                    if before_pop.contains(x) {
                        let j = choose|j: int| 0 <= j < before_pop.len() && before_pop[j] == x;
                        assert(j < stack@.len());
                        assert(stack@[j] == x);
                    }
                }
                assert(visited@[before_pop[before_pop.len() - 1] as int]);
            }
            let epsilon = &self.states[state].epsilon;
            let mut k: usize = 0;
            proof {
                assert(state_wf(self.states@[state as int], n as int));
            }
            let ghost count0 = count_true(visited@);
            proof {
                lemma_count_true_bound(visited@);
            }
            let ghost stack0 = stack@;
            while k < epsilon.len()
                invariant
                    self.wf(),
                    n == self.states@.len(),
                    visited@.len() == n,
                    state < n,
                    visited@[state as int],
                    *epsilon == self.states@[state as int].epsilon,
                    k <= epsilon@.len(),
                    init == initial@.to_set(),
                    self.in_closure(init, state),
                    forall|i: int| 0 <= i < initial@.len() ==> #[trigger] initial@[i] < n,
                    forall|i: int| 0 <= i < initial@.len() ==> visited@[#[trigger] initial@[i] as int],
                    forall|x: usize| x < n && #[trigger] visited@[x as int] ==> self.in_closure(init, x),
                    forall|i: int| 0 <= i < stack@.len() ==> #[trigger] stack@[i] < n,
                    forall|i: int| 0 <= i < stack@.len() ==> visited@[#[trigger] stack@[i] as int],
                    forall|kk: int| 0 <= kk < k ==> visited@[#[trigger] epsilon@[kk] as int],
                    forall|x: usize, kk: int|
                        x < n && visited@[x as int] && !stack@.contains(x) && x != state && 0 <= kk
                            < self.states@[x as int].epsilon@.len() ==> visited@[#[trigger] self.states@[x as int].epsilon@[kk] as int],
                    count_true(visited@) >= count0,
                    count_true(visited@) == count0 ==> stack@ == stack0,
                    count_true(visited@) <= n,
                decreases epsilon@.len() - k,
            {
                let target = epsilon[k];
                proof {
                    assert(state_wf(self.states@[state as int], n as int));
                }
                if !visited[target] {
                    let ghost before_stack = stack@;
                    let ghost before_visited = visited@;
                    visited.set(target, true);
                    stack.push(target);
                    proof {
                        lemma_count_true_set(before_visited, target as int);
                        lemma_count_true_bound(visited@);
                        assert forall|i: int| 0 <= i < initial@.len() implies visited@[#[trigger] initial@[i] as int] by {
                            assert(before_visited[initial@[i] as int]);
                        }
                        assert forall|kk: int| 0 <= kk < k implies visited@[#[trigger] epsilon@[kk] as int] by {
                            assert(before_visited[epsilon@[kk] as int]);
                        }
                        assert forall|t: Set<usize>| #[trigger] self.eps_closed(t) && init.subset_of(t) implies t.contains(
                            target,
                        ) by {
                            assert(t.contains(state));
                        }
                        assert forall|i: int| 0 <= i < stack@.len() implies visited@[#[trigger] stack@[i] as int] by {
                            if i < before_stack.len() {
                                assert(stack@[i] == before_stack[i]);
                            }
                        }
                        assert forall|x: usize, kk: int|
                            x < n && visited@[x as int] && !stack@.contains(x) && x != state && 0 <= kk
                                < self.states@[x as int].epsilon@.len() implies visited@[#[trigger] self.states@[x as int].epsilon@[kk] as int] by {
                            assert(stack@[stack@.len() - 1] == target);
                            assert(x != target);
                            if before_stack.contains(x) {
                                let j = choose|j: int| 0 <= j < before_stack.len() && before_stack[j] == x;
                                assert(stack@[j] == x);
                            }
                            assert(state_wf(self.states@[x as int], n as int));
                            assert(before_visited[x as int]);
                            assert(before_visited[self.states@[x as int].epsilon@[kk] as int]);
                        }
                    }
                }
                k += 1;
            }
            proof {
                assert forall|x: usize, kk: int|
                    x < n && visited@[x as int] && !stack@.contains(x) && 0 <= kk < self.states@[x as int].epsilon@.len()
                        implies visited@[#[trigger] self.states@[x as int].epsilon@[kk] as int] by {
                    if x == state {
                        assert(visited@[epsilon@[kk] as int]);
                    }
                }
                lemma_count_true_bound(visited@);
            }
        }
        let mut result: Vec<usize> = Vec::new();
        let mut q: usize = 0;
        while q < n
            invariant
                n == self.states@.len(),
                visited@.len() == n,
                q <= n,
                sorted_ids(result@),
                forall|i: int| 0 <= i < result@.len() ==> #[trigger] result@[i] < q,
                forall|x: usize| #[trigger] result@.contains(x) <==> (x < q && visited@[x as int]),
            decreases n - q,
        {
            if visited[q] {
                let ghost before = result@;
                result.push(q);
                proof {
                    assert(result@ == before.push(q));
                    assert forall|x: usize| #[trigger] result@.contains(x) <==> (x < q + 1 && visited@[x as int]) by {
                        if x == q {
                            assert(result@[result@.len() - 1] == x);
                        } else {
                            if result@.contains(x) {
                                let j = choose|j: int| 0 <= j < result@.len() && result@[j] == x;
                                assert(j < before.len());
                                assert(before[j] == x);
                                assert(before.contains(x));
                            }
                            if x < q && visited@[x as int] {
                                assert(before.contains(x));
                                let j = choose|j: int| 0 <= j < before.len() && before[j] == x;
                                assert(result@[j] == x);
                            }
                        }
                    }
                }
            }
            q += 1;
        }
        proof {
            let vis = Set::new(|x: usize| x < n && visited@[x as int]);
            assert(self.eps_closed(vis)) by {
                assert forall|x: usize, k: int|
                    vis.contains(x) && x < self.states@.len() && 0 <= k < self.states@[x as int].epsilon@.len()
                        implies vis.contains(#[trigger] self.states@[x as int].epsilon@[k]) by {
                    assert(state_wf(self.states@[x as int], n as int));
                    assert(!stack@.contains(x));
                }
            }
            assert(init.subset_of(vis)) by {
                assert forall|x: usize| init.contains(x) implies vis.contains(x) by {
                    let j = choose|j: int| 0 <= j < initial@.len() && initial@[j] == x;
                    assert(visited@[initial@[j] as int]);
                }
            }
            assert forall|x: usize| #[trigger] result@.to_set().contains(x) <==> self.closure(init).contains(x) by {
                if self.closure(init).contains(x) {
                    assert(self.in_closure(init, x));
                    assert(vis.contains(x));
                }
                if result@.to_set().contains(x) {
                    assert(result@.contains(x));
                }
            }
            assert(result@.to_set() =~= self.closure(init));
            assert forall|i: int| 0 <= i < result@.len() implies #[trigger] result@[i] < self.states@.len() by {}
        }
        result
    }
}

/// The edge classes of state `q`, in order.
pub open spec fn state_sets(states: Seq<State>, q: int) -> Seq<CharSet> {
    states[q].transitions@.map_values(|t: Transition| t.set)
}

/// The edge classes of the states `ids`, state by state.
pub open spec fn subset_sets(states: Seq<State>, ids: Seq<usize>) -> Seq<CharSet>
    decreases ids.len(),
{
    if ids.len() == 0 {
        Seq::empty()
    } else {
        subset_sets(states, ids.drop_last()) + state_sets(states, ids.last() as int)
    }
}

pub open spec fn deref_sets(v: Seq<&CharSet>) -> Seq<CharSet> {
    v.map_values(|x: &CharSet| *x)
}

/// `x` is an edge class of one of the states `ids`.
pub open spec fn is_edge_set(states: Seq<State>, ids: Seq<usize>, x: CharSet) -> bool {
    exists|j: int, k: int|
        0 <= j < ids.len() && 0 <= k < states[ids[j] as int].transitions@.len() && #[trigger] states[ids[j] as int].transitions@[k].set
            == x
}

/// A class listed for `ids` is an edge class of one of those states, and
/// every edge class of those states is listed.
pub proof fn lemma_subset_sets(states: Seq<State>, ids: Seq<usize>)
    ensures
        forall|i: int| 0 <= i < subset_sets(states, ids).len() ==> is_edge_set(states, ids, #[trigger] subset_sets(states, ids)[i]),
        forall|j: int, k: int| 0 <= j < ids.len() && 0 <= k < states[ids[j] as int].transitions@.len() ==> subset_sets(
            states,
            ids,
        ).contains(#[trigger] states[ids[j] as int].transitions@[k].set),
    decreases ids.len(),
{
    if ids.len() > 0 {
        let front = ids.drop_last();
        lemma_subset_sets(states, front);
        let head = subset_sets(states, front);
        let tail = state_sets(states, ids.last() as int);
        let all = subset_sets(states, ids);
        assert(all == head + tail);
        assert forall|i: int| 0 <= i < all.len() implies is_edge_set(states, ids, #[trigger] all[i]) by {
            if i < head.len() {
                assert(all[i] == head[i]);
                assert(is_edge_set(states, front, head[i]));
                let (j, k) = choose|j: int, k: int|
                    0 <= j < front.len() && 0 <= k < states[front[j] as int].transitions@.len()
                        && #[trigger] states[front[j] as int].transitions@[k].set == head[i];
                assert(front[j] == ids[j]);
                assert(states[ids[j] as int].transitions@[k].set == all[i]);
            } else {
                let k = i - head.len();
                assert(all[i] == tail[k]);
                let j = ids.len() - 1;
                assert(tail[k] == states[ids[j] as int].transitions@[k].set);
            }
        }
        assert forall|j: int, k: int| 0 <= j < ids.len() && 0 <= k < states[ids[j] as int].transitions@.len() implies all.contains(
            #[trigger] states[ids[j] as int].transitions@[k].set,
        ) by {
            let x = states[ids[j] as int].transitions@[k].set;
            if j < front.len() {
                assert(front[j] == ids[j]);
                assert(head.contains(states[front[j] as int].transitions@[k].set));
                let i = choose|i: int| 0 <= i < head.len() && head[i] == x;
                assert(all[i] == x);
            } else {
                assert(tail[k] == x);
                assert(all[head.len() + k] == x);
            }
        }
    }
}

/// The characters of `s` (`str::chars` collected).
#[verifier::external_body]
pub(crate) fn str_chars(s: &str) -> (r: Vec<char>)
    ensures
        r@ == s@,
{
    s.chars().collect()
}

/// Number of `true` entries.
pub open spec fn count_true(v: Seq<bool>) -> nat
    decreases v.len(),
{
    if v.len() == 0 {
        0
    } else {
        count_true(v.drop_last()) + if v.last() { 1nat } else { 0nat }
    }
}

pub proof fn lemma_count_true_bound(v: Seq<bool>)
    ensures
        count_true(v) <= v.len(),
    decreases v.len(),
{
    if v.len() > 0 {
        lemma_count_true_bound(v.drop_last());
    }
}

/// Setting a `false` entry to `true` adds one.
pub proof fn lemma_count_true_set(v: Seq<bool>, i: int)
    requires
        0 <= i < v.len(),
        !v[i],
    ensures
        count_true(v.update(i, true)) == count_true(v) + 1,
    decreases v.len(),
{
    if i == v.len() - 1 {
        assert(v.update(i, true).drop_last() =~= v.drop_last());
    } else {
        lemma_count_true_set(v.drop_last(), i);
        assert(v.update(i, true).drop_last() =~= v.drop_last().update(i, true));
    }
}

/// The expression's classes hold only scalar values.
pub open spec fn scalar_expr(e: Expr) -> bool
    decreases e,
{
    match e.kind {
        ExprKind::CharSet(set) => forall|v: int| set.has(v) ==> is_scalar(v),
        ExprKind::Concat(parts) => forall|i: int| 0 <= i < parts@.len() ==> scalar_expr(#[trigger] parts@[i]),
        ExprKind::Alt(parts) => forall|i: int| 0 <= i < parts@.len() ==> scalar_expr(#[trigger] parts@[i]),
        ExprKind::Repeat { expr, .. } => scalar_expr(*expr),
        _ => true,
    }
}

#[derive(Clone, Copy, Debug)]
struct Fragment {
    start: usize,
    end: usize,
}

struct Builder {
    states: Vec<State>,
}

/// The language of expression `e`, as a predicate on strings.
spec fn lang_of(e: Expr) -> spec_fn(Seq<char>) -> bool {
    |w: Seq<char>| matches_expr(e, w)
}

/// The strings of the first `i` parts of the concatenation `e`.
spec fn prefix_lang(e: Expr, i: nat) -> spec_fn(Seq<char>) -> bool {
    |w: Seq<char>| matches_concat(e, i, w)
}

/// The strings of `n` copies of the body of the repetition `e`.
spec fn power_lang(e: Expr, n: nat) -> spec_fn(Seq<char>) -> bool {
    |w: Seq<char>| matches_power(e, n, w)
}

/// The strings of `min` up to `j` copies of the body of the repetition `e`.
spec fn upto_lang(e: Expr, min: nat, j: nat) -> spec_fn(Seq<char>) -> bool {
    |w: Seq<char>| exists|n: nat| min <= n <= j && #[trigger] matches_power(e, n, w)
}

/// The strings of each branch of the alternation `e`.
spec fn branch_lang(e: Expr) -> spec_fn(int, Seq<char>) -> bool {
    |j: int, w: Seq<char>| matches_expr(e.kind->Alt_0@[j], w)
}

impl Builder {
    /// The states are well formed, and (when `scalar`) every class is scalar.
    spec fn ok(&self, scalar: bool) -> bool {
        &&& states_wf(self.states@)
        &&& scalar ==> states_scalar(self.states@)
    }

    /// The table only grew since `earlier`: the states it had are unchanged.
    spec fn grew(&self, earlier: &Self) -> bool {
        &&& earlier.states@.len() <= self.states@.len()
        &&& forall|p: int| 0 <= p < earlier.states@.len() ==> #[trigger] self.states@[p] == earlier.states@[p]
    }

    /// What a finished fragment of `e` guarantees: it lies in the states
    /// added since `earlier`, its end has no edge, and (when `ordered`) it
    /// reads exactly the strings `e` matches.
    spec fn built(&self, earlier: &Self, f: Fragment, e: Expr, ordered: bool) -> bool {
        &&& earlier.states@.len() <= f.start < self.states@.len()
        &&& earlier.states@.len() <= f.end < self.states@.len()
        &&& no_edges(self.states@, f.end)
        &&& ordered ==> fragment(
            self.states@,
            earlier.states@.len() as int,
            self.states@.len() as int,
            f.start,
            f.end,
            lang_of(e),
        )
    }

    fn state(&mut self, Ghost(scalar): Ghost<bool>) -> (id: usize)
        requires
            old(self).ok(scalar),
        ensures
            final(self).ok(scalar),
            final(self).grew(old(self)),
            id == old(self).states@.len(),
            final(self).states@.len() == old(self).states@.len() + 1,
            no_edges(final(self).states@, id),
    {
        let id = self.states.len();
        let ghost before = self.states@;
        self.states.push(State { epsilon: Vec::new(), transitions: Vec::new() });
        proof {
            assert forall|q: int| 0 <= q < self.states@.len() implies #[trigger] state_wf(
                self.states@[q],
                self.states@.len() as int,
            ) by {
                if q < before.len() {
                    assert(state_wf(before[q], before.len() as int));
                }
            }
            if scalar {
                assert forall|q: int, k: int, v: int|
                    0 <= q < self.states@.len() && 0 <= k < self.states@[q].transitions@.len()
                        && #[trigger] self.states@[q].transitions@[k].set.has(v) implies is_scalar(v) by {
                    assert(before[q].transitions@[k].set.has(v));
                }
            }
        }
        id
    }

    fn epsilon(&mut self, from: usize, to: usize, Ghost(scalar): Ghost<bool>)
        requires
            old(self).ok(scalar),
            from < old(self).states@.len(),
            to < old(self).states@.len(),
        ensures
            final(self).ok(scalar),
            final(self).states@.len() == old(self).states@.len(),
            forall|p: int| 0 <= p < old(self).states@.len() && p != from ==> #[trigger] final(self).states@[p] == old(
                self,
            ).states@[p],
            final(self).states@[from as int].epsilon@ == old(self).states@[from as int].epsilon@.push(to),
            final(self).states@[from as int].transitions@ == old(self).states@[from as int].transitions@,
    {
        let ghost before = self.states@;
        let mut st = State { epsilon: Vec::new(), transitions: Vec::new() };
        self.states.set_and_swap(from, &mut st);
        st.epsilon.push(to);
        self.states.set(from, st);
        proof {
            let n = before.len() as int;
            assert(state_wf(before[from as int], n));
            assert forall|q: int| 0 <= q < self.states@.len() implies #[trigger] state_wf(self.states@[q], n) by {
                if q != from {
                    assert(state_wf(before[q], n));
                } else {
                    assert forall|k: int| 0 <= k < self.states@[q].epsilon@.len() implies #[trigger] self.states@[q].epsilon@[k] < n by {
                        if k < before[q].epsilon@.len() {
                            assert(before[q].epsilon@[k] < n);
                        }
                    }
                }
            }
            if scalar {
                assert forall|q: int, k: int, v: int|
                    0 <= q < self.states@.len() && 0 <= k < self.states@[q].transitions@.len()
                        && #[trigger] self.states@[q].transitions@[k].set.has(v) implies is_scalar(v) by {
                    assert(before[q].transitions@[k].set.has(v));
                }
            }
        }
    }

    fn transition(&mut self, from: usize, to: usize, set: CharSet, Ghost(scalar): Ghost<bool>)
        requires
            old(self).ok(scalar),
            from < old(self).states@.len(),
            to < old(self).states@.len(),
            scalar ==> forall|v: int| set.has(v) ==> is_scalar(v),
        ensures
            final(self).ok(scalar),
            final(self).states@.len() == old(self).states@.len(),
            forall|p: int| 0 <= p < old(self).states@.len() && p != from ==> #[trigger] final(self).states@[p] == old(
                self,
            ).states@[p],
            final(self).states@[from as int].epsilon@ == old(self).states@[from as int].epsilon@,
            final(self).states@[from as int].transitions@ == if exists|v: int| set.has(v) {
                old(self).states@[from as int].transitions@.push(Transition { set, target: to })
            } else {
                old(self).states@[from as int].transitions@
            },
    {
        if !set.is_empty() {
            let ghost before = self.states@;
            let ghost t = Transition { set, target: to };
            let mut st = State { epsilon: Vec::new(), transitions: Vec::new() };
            self.states.set_and_swap(from, &mut st);
            st.transitions.push(Transition { set, target: to });
            self.states.set(from, st);
            proof {
                let n = before.len() as int;
                assert(state_wf(before[from as int], n));
                assert forall|q: int| 0 <= q < self.states@.len() implies #[trigger] state_wf(self.states@[q], n) by {
                    if q != from {
                        assert(state_wf(before[q], n));
                    } else {
                        assert forall|k: int| 0 <= k < self.states@[q].transitions@.len() implies #[trigger] self.states@[q].transitions@[k].target < n by {
                            if k < before[q].transitions@.len() {
                                assert(before[q].transitions@[k].target < n);
                            }
                        }
                    }
                }
                if scalar {
                    assert forall|q: int, k: int, v: int|
                        0 <= q < self.states@.len() && 0 <= k < self.states@[q].transitions@.len()
                            && #[trigger] self.states@[q].transitions@[k].set.has(v) implies is_scalar(v) by {
                        if q != from || k < before[q].transitions@.len() {
                            assert(before[q].transitions@[k].set.has(v));
                        }
                    }
                }
            }
        }
    }

    fn empty(&mut self, Ghost(scalar): Ghost<bool>) -> (f: Fragment)
        requires
            old(self).ok(scalar),
        ensures
            final(self).ok(scalar),
            final(self).grew(old(self)),
            final(self).states@.len() == old(self).states@.len() + 2,
            f.start == old(self).states@.len(),
            f.end == old(self).states@.len() + 1,
            no_edges(final(self).states@, f.end),
            fragment(
                final(self).states@,
                old(self).states@.len() as int,
                final(self).states@.len() as int,
                f.start,
                f.end,
                eps_lang(),
            ),
    {
        let ghost lo = self.states@.len() as int;
        let start = self.state(Ghost(scalar));
        let end = self.state(Ghost(scalar));
        self.epsilon(start, end, Ghost(scalar));
        proof {
            assert(self.states@[start as int].epsilon@ =~= seq![end]);
            lemma_eps_pair(self.states@, lo, start, end);
        }
        Fragment { start, end }
    }

    fn build(&mut self, expr: &Expr, Ghost(scalar): Ghost<bool>, Ghost(ordered): Ghost<bool>) -> (f: Fragment)
        requires
            old(self).ok(scalar),
            scalar ==> scalar_expr(*expr),
            ordered ==> bounds_ordered(*expr),
        ensures
            final(self).ok(scalar),
            final(self).grew(old(self)),
            final(self).built(old(self), f, *expr, ordered),
        decreases expr, 1nat,
    {
        let ghost lo = self.states@.len() as int;
        match &expr.kind {
            ExprKind::Literal(ch) => {
                let start = self.state(Ghost(scalar));
                let end = self.state(Ghost(scalar));
                let set = CharSet::singleton(*ch);
                let ghost class = set;
                self.transition(start, end, set, Ghost(scalar));
                proof {
                    lemma_leaf(self.states@, lo, start, end, class);
                    assert forall|w: Seq<char>| #[trigger] class_lang(class)(w) == lang_of(*expr)(w) by {
                        if w.len() == 1 && class.has(w[0] as int) {
                            assert(w =~= seq![*ch]);
                        }
                    }
                    lemma_fragment_lang(self.states@, lo, lo + 2, start, end, class_lang(class), lang_of(*expr));
                }
                Fragment { start, end }
            },
            ExprKind::CharSet(set) => {
                let start = self.state(Ghost(scalar));
                let end = self.state(Ghost(scalar));
                let copy = set.clone();
                let ghost class = copy;
                self.transition(start, end, copy, Ghost(scalar));
                proof {
                    lemma_leaf(self.states@, lo, start, end, class);
                    assert forall|w: Seq<char>| #[trigger] class_lang(class)(w) == lang_of(*expr)(w) by {}
                    lemma_fragment_lang(self.states@, lo, lo + 2, start, end, class_lang(class), lang_of(*expr));
                }
                Fragment { start, end }
            },
            ExprKind::Concat(parts) => {
                if parts.len() == 0 {
                    let f = self.empty(Ghost(scalar));
                    proof {
                        assert forall|w: Seq<char>| #[trigger] eps_lang()(w) == lang_of(*expr)(w) by {
                            assert(matches_expr(*expr, w) == matches_concat(*expr, 0, w));
                        }
                        lemma_fragment_lang(self.states@, lo, self.states@.len() as int, f.start, f.end, eps_lang(), lang_of(*expr));
                    }
                    return f;
                }
                proof {
                    assert(decreases_to!(*expr => expr.kind));
                    assert(decreases_to!(expr.kind => expr.kind->Concat_0));
                    assert(decreases_to!(*parts => parts@));
                    assert(decreases_to!(parts@ => parts@[0]));
                }
                let mut result = self.build(&parts[0], Ghost(scalar), Ghost(ordered));
                proof {
                    if ordered {
                        lemma_concat_first(*expr);
                        lemma_fragment_lang(
                            self.states@,
                            lo,
                            self.states@.len() as int,
                            result.start,
                            result.end,
                            lang_of(parts@[0]),
                            prefix_lang(*expr, 1),
                        );
                    }
                }
                let mut i: usize = 1;
                while i < parts.len()
                    invariant
                        1 <= i <= parts@.len(),
                        expr.kind == ExprKind::Concat(*parts),
                        lo == old(self).states@.len(),
                        self.ok(scalar),
                        self.grew(old(self)),
                        lo <= result.start < self.states@.len(),
                        lo <= result.end < self.states@.len(),
                        no_edges(self.states@, result.end),
                        scalar ==> forall|j: int| 0 <= j < parts@.len() ==> scalar_expr(#[trigger] parts@[j]),
                        ordered ==> forall|j: int| 0 <= j < parts@.len() ==> bounds_ordered(#[trigger] parts@[j]),
                        ordered ==> fragment(
                            self.states@,
                            lo,
                            self.states@.len() as int,
                            result.start,
                            result.end,
                            prefix_lang(*expr, i as nat),
                        ),
                    decreases parts@.len() - i,
                {
                    proof {
                        assert(decreases_to!(*expr => expr.kind));
                        assert(decreases_to!(expr.kind => expr.kind->Concat_0));
                        assert(decreases_to!(*parts => parts@));
                        assert(decreases_to!(parts@ => parts@[i as int]));
                    }
                    let ghost mid = self.states@.len() as int;
                    let ghost st_a = self.states@;
                    let next = self.build(&parts[i], Ghost(scalar), Ghost(ordered));
                    let ghost st_b = self.states@;
                    self.epsilon(result.end, next.start, Ghost(scalar));
                    proof {
                        let st = self.states@;
                        let hi = st.len() as int;
                        assert(st_b[result.end as int] == st_a[result.end as int]);
                        assert(st[result.end as int].epsilon@ =~= seq![next.start]);
                        if ordered {
                            let la = prefix_lang(*expr, i as nat);
                            let lb = lang_of(parts@[i as int]);
                            lemma_fragment_agree(st_a, st, lo, mid, result.start, result.end, la);
                            lemma_fragment_agree(st_b, st, mid, hi, next.start, next.end, lb);
                            lemma_concat_step(st, lo, mid, hi, result.start, result.end, next.start, next.end, la, lb);
                            lemma_concat_next(*expr, i as nat);
                            lemma_fragment_lang(
                                st,
                                lo,
                                hi,
                                result.start,
                                next.end,
                                concat_lang(la, lb),
                                prefix_lang(*expr, (i + 1) as nat),
                            );
                        }
                    }
                    result = Fragment { start: result.start, end: next.end };
                    i += 1;
                }
                proof {
                    if ordered {
                        assert forall|w: Seq<char>| #[trigger] prefix_lang(*expr, i as nat)(w) == lang_of(*expr)(w) by {}
                        lemma_fragment_lang(
                            self.states@,
                            lo,
                            self.states@.len() as int,
                            result.start,
                            result.end,
                            prefix_lang(*expr, i as nat),
                            lang_of(*expr),
                        );
                    }
                }
                result
            },
            ExprKind::Alt(branches) => {
                let start = self.state(Ghost(scalar));
                let end = self.state(Ghost(scalar));
                let ghost lang = branch_lang(*expr);
                let ghost mut regs: Seq<(usize, usize, usize, usize)> = Seq::empty();
                proof {
                    assert(self.states@[lo].epsilon@ =~= Seq::<usize>::empty());
                }
                let mut i: usize = 0;
                while i < branches.len()
                    invariant
                        i <= branches@.len(),
                        expr.kind == ExprKind::Alt(*branches),
                        lo == old(self).states@.len(),
                        start == lo,
                        end == lo + 1,
                        lo + 2 <= self.states@.len(),
                        self.ok(scalar),
                        self.grew(old(self)),
                        no_edges(self.states@, end),
                        regs.len() == i,
                        lang == branch_lang(*expr),
                        scalar ==> forall|j: int| 0 <= j < branches@.len() ==> scalar_expr(#[trigger] branches@[j]),
                        ordered ==> forall|j: int| 0 <= j < branches@.len() ==> bounds_ordered(#[trigger] branches@[j]),
                        ordered ==> alt_ok(self.states@, lo, self.states@.len() as int, regs, lang),
                    decreases branches@.len() - i,
                {
                    proof {
                        assert(decreases_to!(*expr => expr.kind));
                        assert(decreases_to!(expr.kind => expr.kind->Alt_0));
                        assert(decreases_to!(*branches => branches@));
                        assert(decreases_to!(branches@ => branches@[i as int]));
                    }
                    let ghost st0 = self.states@;
                    let fragment = self.build(&branches[i], Ghost(scalar), Ghost(ordered));
                    let ghost st1 = self.states@;
                    self.epsilon(start, fragment.start, Ghost(scalar));
                    let ghost st2 = self.states@;
                    self.epsilon(fragment.end, end, Ghost(scalar));
                    proof {
                        let st = self.states@;
                        assert(st1.len() == self.states.len());
                        let reg = (st0.len() as usize, st1.len() as usize, fragment.start, fragment.end);
                        if ordered {
                            let lb = |w: Seq<char>| lang(regs.len() as int, w);
                            assert forall|w: Seq<char>| #[trigger] lang_of(branches@[i as int])(w) == lb(w) by {}
                            lemma_fragment_lang(
                                st1,
                                st0.len() as int,
                                st1.len() as int,
                                fragment.start,
                                fragment.end,
                                lang_of(branches@[i as int]),
                                lb,
                            );
                            lemma_alt_extend(st0, st1, st2, st, lo, regs, lang, reg);
                        }
                        regs = regs.push(reg);
                    }
                    i += 1;
                }
                proof {
                    if ordered {
                        lemma_alt(self.states@, lo, self.states@.len() as int, start, end, regs, lang);
                        assert forall|w: Seq<char>| #[trigger] any_lang(regs.len() as int, lang)(w) == lang_of(*expr)(w) by {
                            if any_lang(regs.len() as int, lang)(w) {
                                let j = choose|j: int| 0 <= j < regs.len() && #[trigger] lang(j, w);
                                assert(matches_expr(branches@[j], w));
                            }
                            if lang_of(*expr)(w) {
                                let j = choose|j: int| 0 <= j < branches@.len() && matches_expr(#[trigger] branches@[j], w);
                                assert(lang(j, w));
                            }
                        }
                        lemma_fragment_lang(
                            self.states@,
                            lo,
                            self.states@.len() as int,
                            start,
                            end,
                            any_lang(regs.len() as int, lang),
                            lang_of(*expr),
                        );
                    }
                }
                Fragment { start, end }
            },
            ExprKind::Repeat { expr: inner, min, max } => self.repeat(
                inner,
                *min,
                *max,
                Ghost(scalar),
                Ghost(ordered),
                Ghost(*expr),
            ),
            _ => {
                let f = self.empty(Ghost(scalar));
                proof {
                    assert forall|w: Seq<char>| #[trigger] eps_lang()(w) == lang_of(*expr)(w) by {}
                    lemma_fragment_lang(self.states@, lo, self.states@.len() as int, f.start, f.end, eps_lang(), lang_of(*expr));
                }
                f
            },
        }
    }

    fn repeat(
        &mut self,
        expr: &Expr,
        min: usize,
        max: Option<usize>,
        Ghost(scalar): Ghost<bool>,
        Ghost(ordered): Ghost<bool>,
        Ghost(whole): Ghost<Expr>,
    ) -> (f: Fragment)
        requires
            old(self).ok(scalar),
            scalar ==> scalar_expr(*expr),
            ordered ==> bounds_ordered(whole),
            whole.kind matches ExprKind::Repeat { expr: boxed, min: lower, max: upper } && *boxed == *expr && lower == min
                && upper == max,
        ensures
            final(self).ok(scalar),
            final(self).grew(old(self)),
            final(self).built(old(self), f, whole, ordered),
        decreases whole, 0nat,
    {
        let ghost lo = self.states@.len() as int;
        let ghost inner = lang_of(*expr);
        let mut result = self.empty(Ghost(scalar));
        proof {
            assert forall|w: Seq<char>| #[trigger] eps_lang()(w) == power_lang(whole, 0)(w) by {}
            lemma_fragment_lang(self.states@, lo, self.states@.len() as int, result.start, result.end, eps_lang(), power_lang(whole, 0));
        }
        let mut i: usize = 0;
        while i < min
            invariant
                i <= min,
                scalar ==> scalar_expr(*expr),
                ordered ==> bounds_ordered(whole),
                whole.kind matches ExprKind::Repeat { expr: boxed, min: lower, max: upper } && *boxed == *expr && lower == min
                    && upper == max,
                inner == lang_of(*expr),
                lo == old(self).states@.len(),
                self.ok(scalar),
                self.grew(old(self)),
                lo <= result.start < self.states@.len(),
                lo <= result.end < self.states@.len(),
                no_edges(self.states@, result.end),
                ordered ==> fragment(
                    self.states@,
                    lo,
                    self.states@.len() as int,
                    result.start,
                    result.end,
                    power_lang(whole, i as nat),
                ),
            decreases min - i,
        {
            let ghost mid = self.states@.len() as int;
            let ghost st_a = self.states@;
            let copy = self.build(expr, Ghost(scalar), Ghost(ordered));
            let ghost st_b = self.states@;
            self.epsilon(result.end, copy.start, Ghost(scalar));
            proof {
                let st = self.states@;
                let hi = st.len() as int;
                assert(st_b[result.end as int] == st_a[result.end as int]);
                assert(st[result.end as int].epsilon@ =~= seq![copy.start]);
                if ordered {
                    let la = power_lang(whole, i as nat);
                    lemma_fragment_agree(st_a, st, lo, mid, result.start, result.end, la);
                    lemma_fragment_agree(st_b, st, mid, hi, copy.start, copy.end, inner);
                    lemma_concat_step(st, lo, mid, hi, result.start, result.end, copy.start, copy.end, la, inner);
                    lemma_power_next(whole, *expr, i as nat);
                    lemma_fragment_lang(st, lo, hi, result.start, copy.end, concat_lang(la, inner), power_lang(whole, (i + 1) as nat));
                }
            }
            result = Fragment { start: result.start, end: copy.end };
            i += 1;
        }
        match max {
            Some(maximum) => {
                proof {
                    if ordered {
                        assert forall|w: Seq<char>| #[trigger] power_lang(whole, min as nat)(w) == upto_lang(whole, min as nat, min as nat)(w) by {
                            if power_lang(whole, min as nat)(w) {
                                assert(matches_power(whole, min as nat, w));
                            }
                        }
                        lemma_fragment_lang(
                            self.states@,
                            lo,
                            self.states@.len() as int,
                            result.start,
                            result.end,
                            power_lang(whole, min as nat),
                            upto_lang(whole, min as nat, min as nat),
                        );
                    }
                }
                let mut j: usize = min;
                while j < maximum
                    invariant
                        min <= j,
                        j <= maximum || j == min,
                        scalar ==> scalar_expr(*expr),
                        ordered ==> bounds_ordered(whole),
                        whole.kind matches ExprKind::Repeat { expr: boxed, min: lower, max: upper } && *boxed == *expr && lower
                            == min && upper == max,
                        max == Some(maximum),
                        inner == lang_of(*expr),
                        lo == old(self).states@.len(),
                        self.ok(scalar),
                        self.grew(old(self)),
                        lo <= result.start < self.states@.len(),
                        lo <= result.end < self.states@.len(),
                        no_edges(self.states@, result.end),
                        ordered ==> fragment(
                            self.states@,
                            lo,
                            self.states@.len() as int,
                            result.start,
                            result.end,
                            upto_lang(whole, min as nat, j as nat),
                        ),
                    decreases maximum - j,
                {
                    let ghost mid = self.states@.len() as int;
                    let ghost st_a = self.states@;
                    let optional_end = self.state(Ghost(scalar));
                    let ghost st_o = self.states@;
                    let copy = self.build(expr, Ghost(scalar), Ghost(ordered));
                    let ghost st_b = self.states@;
                    self.epsilon(result.end, optional_end, Ghost(scalar));
                    self.epsilon(result.end, copy.start, Ghost(scalar));
                    self.epsilon(copy.end, optional_end, Ghost(scalar));
                    proof {
                        let st = self.states@;
                        let hi = st.len() as int;
                        assert(st_b[result.end as int] == st_a[result.end as int]);
                        assert(st_b[optional_end as int] == st_o[optional_end as int]);
                        assert(st[result.end as int].epsilon@ =~= seq![optional_end, copy.start]);
                        assert(st[copy.end as int].epsilon@ =~= seq![optional_end]);
                        if ordered {
                            let la = upto_lang(whole, min as nat, j as nat);
                            lemma_fragment_agree(st_a, st, lo, mid, result.start, result.end, la);
                            lemma_fragment_agree(st_b, st, mid + 1, hi, copy.start, copy.end, inner);
                            lemma_optional_step(
                                st,
                                lo,
                                mid,
                                hi,
                                result.start,
                                result.end,
                                optional_end,
                                copy.start,
                                copy.end,
                                la,
                                inner,
                            );
                            lemma_optional_power(whole, *expr, min as nat, j as nat);
                            lemma_fragment_lang(
                                st,
                                lo,
                                hi,
                                result.start,
                                optional_end,
                                optional_lang(la, inner),
                                upto_lang(whole, min as nat, (j + 1) as nat),
                            );
                        }
                    }
                    result = Fragment { start: result.start, end: optional_end };
                    j += 1;
                }
                proof {
                    if ordered {
                        assert(j == maximum);
                        assert forall|w: Seq<char>| #[trigger] upto_lang(whole, min as nat, j as nat)(w) == lang_of(whole)(w) by {
                            if lang_of(whole)(w) {
                                let n = choose|n: nat| #[trigger] copies_allowed(min, max, n) && matches_power(whole, n, w);
                                assert(min <= n <= j && matches_power(whole, n, w));
                            }
                            if upto_lang(whole, min as nat, j as nat)(w) {
                                let n = choose|n: nat| min <= n <= j && #[trigger] matches_power(whole, n, w);
                                assert(copies_allowed(min, max, n));
                            }
                        }
                        lemma_fragment_lang(
                            self.states@,
                            lo,
                            self.states@.len() as int,
                            result.start,
                            result.end,
                            upto_lang(whole, min as nat, j as nat),
                            lang_of(whole),
                        );
                    }
                }
                result
            },
            None => {
                let ghost mid = self.states@.len() as int;
                let ghost st_a = self.states@;
                let loop_end = self.state(Ghost(scalar));
                let ghost st_o = self.states@;
                let copy = self.build(expr, Ghost(scalar), Ghost(ordered));
                let ghost st_b = self.states@;
                self.epsilon(result.end, loop_end, Ghost(scalar));
                self.epsilon(result.end, copy.start, Ghost(scalar));
                self.epsilon(copy.end, loop_end, Ghost(scalar));
                self.epsilon(copy.end, copy.start, Ghost(scalar));
                proof {
                    let st = self.states@;
                    let hi = st.len() as int;
                    assert(st_b[result.end as int] == st_a[result.end as int]);
                    assert(st_b[loop_end as int] == st_o[loop_end as int]);
                    assert(st[result.end as int].epsilon@ =~= seq![loop_end, copy.start]);
                    assert(st[copy.end as int].epsilon@ =~= seq![loop_end, copy.start]);
                    if ordered {
                        let la = power_lang(whole, min as nat);
                        lemma_fragment_agree(st_a, st, lo, mid, result.start, result.end, la);
                        lemma_fragment_agree(st_b, st, mid + 1, hi, copy.start, copy.end, inner);
                        lemma_star_step(st, lo, mid, hi, result.start, result.end, loop_end, copy.start, copy.end, la, inner);
                        lemma_star_power(whole, *expr, min as nat);
                        lemma_fragment_lang(st, lo, hi, result.start, loop_end, star_lang(la, inner), lang_of(whole));
                    }
                }
                Fragment { start: result.start, end: loop_end }
            },
        }
    }
}

/// The first part of a concatenation alone is its first prefix.
proof fn lemma_concat_first(e: Expr)
    requires
        e.kind matches ExprKind::Concat(parts) && parts@.len() > 0,
    ensures
        forall|w: Seq<char>| #[trigger] lang_of(e.kind->Concat_0@[0])(w) == prefix_lang(e, 1)(w),
{
    let parts = e.kind->Concat_0;
    assert forall|w: Seq<char>| #[trigger] lang_of(parts@[0])(w) == prefix_lang(e, 1)(w) by {
        lemma_concat_unfold(e, 1, w);
        assert(w.take(0) =~= Seq::<char>::empty());
        assert(w.skip(0) =~= w);
        if prefix_lang(e, 1)(w) {
            let k = choose|k: int| 0 <= k <= w.len() && matches_concat(e, 0, #[trigger] w.take(k)) && matches_expr(parts@[0], w.skip(k));
            assert(w.take(k).len() == 0);
        }
        if lang_of(parts@[0])(w) {
            assert(matches_concat(e, 0, w.take(0)) && matches_expr(parts@[0], w.skip(0)));
        }
    }
}

/// The first `i` parts followed by part `i` are the first `i + 1`.
proof fn lemma_concat_next(e: Expr, i: nat)
    requires
        e.kind matches ExprKind::Concat(parts) && i < parts@.len(),
    ensures
        forall|w: Seq<char>|
            #[trigger] concat_lang(prefix_lang(e, i), lang_of(e.kind->Concat_0@[i as int]))(w) == prefix_lang(e, i + 1)(w),
{
    let parts = e.kind->Concat_0;
    let la = prefix_lang(e, i);
    let lb = lang_of(parts@[i as int]);
    assert forall|w: Seq<char>| #[trigger] concat_lang(la, lb)(w) == prefix_lang(e, i + 1)(w) by {
        lemma_concat_unfold(e, i + 1, w);
        if concat_lang(la, lb)(w) {
            let k = choose|k: int| 0 <= k <= w.len() && #[trigger] la(w.take(k)) && lb(w.skip(k));
            assert(matches_concat(e, i, w.take(k)) && matches_expr(parts@[i as int], w.skip(k)));
        }
        if prefix_lang(e, i + 1)(w) {
            let k = choose|k: int|
                0 <= k <= w.len() && matches_concat(e, i, #[trigger] w.take(k)) && matches_expr(parts@[i as int], w.skip(k));
            assert(la(w.take(k)) && lb(w.skip(k)));
        }
    }
}

/// `i` copies followed by one more are `i + 1` copies.
proof fn lemma_power_next(whole: Expr, body: Expr, i: nat)
    requires
        whole.kind matches ExprKind::Repeat { expr: boxed, .. } && *boxed == body,
    ensures
        forall|w: Seq<char>| #[trigger] concat_lang(power_lang(whole, i), lang_of(body))(w) == power_lang(whole, i + 1)(w),
{
    let la = power_lang(whole, i);
    let lb = lang_of(body);
    assert forall|w: Seq<char>| #[trigger] concat_lang(la, lb)(w) == power_lang(whole, i + 1)(w) by {
        lemma_power_unfold(whole, i + 1, w);
        if concat_lang(la, lb)(w) {
            let k = choose|k: int| 0 <= k <= w.len() && #[trigger] la(w.take(k)) && lb(w.skip(k));
            assert(matches_power(whole, i, w.take(k)) && matches_expr(body, w.skip(k)));
        }
        if power_lang(whole, i + 1)(w) {
            let k = choose|k: int| 0 <= k <= w.len() && matches_power(whole, i, #[trigger] w.take(k)) && matches_expr(body, w.skip(k));
            assert(la(w.take(k)) && lb(w.skip(k)));
        }
    }
}

/// `n` copies of a repetition's body are `n` strings of the body's language.
proof fn lemma_power_rep(whole: Expr, body: Expr, n: nat, w: Seq<char>)
    requires
        whole.kind matches ExprKind::Repeat { expr: boxed, .. } && *boxed == body,
    ensures
        matches_power(whole, n, w) == rep(lang_of(body), n, w),
    decreases n,
{
    if n > 0 {
        lemma_rep_unfold(lang_of(body), n, w);
        lemma_power_unfold(whole, n, w);
        assert forall|k: int| 0 <= k <= w.len() implies matches_power(whole, (n - 1) as nat, #[trigger] w.take(k)) == rep(
            lang_of(body),
            (n - 1) as nat,
            w.take(k),
        ) by {
            lemma_power_rep(whole, body, (n - 1) as nat, w.take(k));
        }
    }
}

/// Up to `j` copies, optionally followed by one more, are up to `j + 1`.
proof fn lemma_optional_power(whole: Expr, body: Expr, min: nat, j: nat)
    requires
        whole.kind matches ExprKind::Repeat { expr: boxed, .. } && *boxed == body,
        min <= j,
    ensures
        forall|w: Seq<char>| #[trigger] optional_lang(upto_lang(whole, min, j), lang_of(body))(w) == upto_lang(whole, min, j + 1)(w),
{
    let la = upto_lang(whole, min, j);
    let lb = lang_of(body);
    assert forall|w: Seq<char>| #[trigger] optional_lang(la, lb)(w) == upto_lang(whole, min, j + 1)(w) by {
        if optional_lang(la, lb)(w) {
            let k = choose|k: int| 0 <= k <= w.len() && #[trigger] la(w.take(k)) && (k == w.len() || lb(w.skip(k)));
            let n = choose|n: nat| min <= n <= j && #[trigger] matches_power(whole, n, w.take(k));
            if k == w.len() {
                assert(w.take(k) =~= w);
                assert(matches_power(whole, n, w));
            } else {
                lemma_power_unfold(whole, n + 1, w);
                assert(matches_power(whole, n, w.take(k)) && matches_expr(body, w.skip(k)));
                assert(matches_power(whole, n + 1, w));
            }
        }
        if upto_lang(whole, min, j + 1)(w) {
            let n = choose|n: nat| min <= n <= j + 1 && #[trigger] matches_power(whole, n, w);
            if n <= j {
                assert(w.take(w.len() as int) =~= w);
                assert(matches_power(whole, n, w.take(w.len() as int)));
                assert(la(w.take(w.len() as int)));
            } else {
                lemma_power_unfold(whole, n, w);
                let k = choose|k: int|
                    0 <= k <= w.len() && matches_power(whole, (n - 1) as nat, #[trigger] w.take(k)) && matches_expr(body, w.skip(k));
                assert(matches_power(whole, (n - 1) as nat, w.take(k)));
                assert(la(w.take(k)));
            }
        }
    }
}

/// `min` copies followed by any number more are at least `min` copies.
proof fn lemma_star_power(whole: Expr, body: Expr, min: nat)
    requires
        whole.kind matches ExprKind::Repeat { expr: boxed, min: lower, max: upper } && *boxed == body && lower == min
            && upper is None,
    ensures
        forall|w: Seq<char>| #[trigger] star_lang(power_lang(whole, min), lang_of(body))(w) == lang_of(whole)(w),
{
    let la = power_lang(whole, min);
    let lb = lang_of(body);
    assert forall|w: Seq<char>| #[trigger] star_lang(la, lb)(w) == lang_of(whole)(w) by {
        if star_lang(la, lb)(w) {
            let (k, m) = choose|k: int, m: nat| 0 <= k <= w.len() && #[trigger] la(w.take(k)) && #[trigger] rep(lb, m, w.skip(k));
            lemma_power_rep(whole, body, min, w.take(k));
            lemma_rep_add(lb, min, m, w);
            lemma_power_rep(whole, body, min + m, w);
            assert(copies_allowed(min as usize, None, min + m));
        }
        if lang_of(whole)(w) {
            let n = choose|n: nat| #[trigger] copies_allowed(min as usize, None, n) && matches_power(whole, n, w);
            let m = (n - min) as nat;
            lemma_power_rep(whole, body, n, w);
            assert(min + m == n);
            lemma_rep_add(lb, min, m, w);
            let k = choose|k: int| 0 <= k <= w.len() && rep(lb, min, #[trigger] w.take(k)) && rep(lb, m, w.skip(k));
            lemma_power_rep(whole, body, min, w.take(k));
            assert(la(w.take(k)) && rep(lb, m, w.skip(k)));
        }
    }
}

/// An automaton whose whole table is a fragment of `e`, from its start to
/// its accept state (which has no edge), accepts exactly the strings `e`
/// matches.
proof fn lemma_thompson(r: Nfa, e: Expr)
    requires
        r.wf(),
        no_edges(r.states@, r.accept),
        fragment(r.states@, 0, r.states@.len() as int, r.start, r.accept, lang_of(e)),
    ensures
        forall|w: Seq<char>| #[trigger] r.accepts(w) == matches_expr(e, w),
{
    reveal(fragment);
    let st = r.states@;
    assert forall|w: Seq<char>| #[trigger] r.accepts(w) == matches_expr(e, w) by {
        lemma_run_walk(r, w);
        assert(reads(st, 0, st.len() as int, r.start, r.accept, w) == lang_of(e)(w));
        if r.accepts(w) {
            let ms = choose|ms: Seq<Move>| #[trigger] walk(st, r.start, ms, r.accept) && word(ms) == w;
            lemma_walk_within_all(st, r.start, ms, r.accept, r.accept);
            assert(reads(st, 0, st.len() as int, r.start, r.accept, w));
        }
        if matches_expr(e, w) {
            let ms = choose|ms: Seq<Move>|
                #[trigger] walk(st, r.start, ms, r.accept) && word(ms) == w && within(ms, 0, st.len() as int, r.accept);
            assert(r.run(w).contains(r.accept));
        }
    }
}

/// A well-formed expression has only scalar classes.
pub proof fn lemma_wf_expr_is_scalar(e: Expr, alphabet: Alphabet, max_repeat: usize)
    requires
        expr_wf(e, alphabet, max_repeat),
    ensures
        scalar_expr(e),
    decreases e,
{
    match e.kind {
        ExprKind::CharSet(set) => {
            assert forall|v: int| set.has(v) implies is_scalar(v) by {
                assert(alphabet_has(alphabet, v));
            }
        },
        ExprKind::Concat(parts) => {
            assert forall|i: int| 0 <= i < parts@.len() implies scalar_expr(#[trigger] parts@[i]) by {
                lemma_wf_expr_is_scalar(parts@[i], alphabet, max_repeat);
            }
        },
        ExprKind::Alt(parts) => {
            assert forall|i: int| 0 <= i < parts@.len() implies scalar_expr(#[trigger] parts@[i]) by {
                lemma_wf_expr_is_scalar(parts@[i], alphabet, max_repeat);
            }
        },
        ExprKind::Repeat { expr, .. } => {
            lemma_wf_expr_is_scalar(*expr, alphabet, max_repeat);
        },
        _ => {},
    }
}

} // verus!
