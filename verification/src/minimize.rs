//! A second analysis engine: determinize each automaton, minimize it, then
//! settle equivalence by comparing canonical forms of the minimal automata,
//! or search the product of the two minimal automata for a witness.
use crate::analysis::{state_budget, 
    duration_millis, lemma_moves_alike, lemma_moves_none, lemma_subset_sets_scalar, same_ids, subset_slot, subset_slot_of, bucket_add, buckets_ok, elapsed_ms, empty_buckets, instant_now, lemma_path_word_push, parents_ok, path_word,
    reconstruct, relation_of, BackendResult, BackendStatus, Clock, Query, RelationBackend, SearchNode, WallClock, BUCKETS,
};
use crate::charset::partition::{any_has, same_membership, sets_scalar, source_sets, uniform_range};
use crate::charset::{alphabet_partition, representative_chars, CharSet, Interval};
use crate::config::Config;
use crate::nfa::{count_true, lemma_count_true_bound, lemma_count_true_set, sorted_ids, subset_sets, Nfa};
use crate::report::{relation, TOOL_VERSION};
use std::time::{Duration, Instant};
use vstd::prelude::*;

verus! {

/// The dead state every automaton here carries: rejecting, with no edges.
pub const DEAD: usize = 0;

pub struct DfaState {
    pub accepting: bool,
    pub transitions: Vec<(CharSet, usize)>,
    pub members: Vec<usize>,
}

/// A deterministic automaton whose missing edges lead to [`DEAD`].
pub struct Dfa {
    pub states: Vec<DfaState>,
    pub start: usize,
}

/// The target of the first edge whose class holds `c`, or [`DEAD`].
pub open spec fn first_target(ts: Seq<(CharSet, usize)>, c: int) -> usize
    decreases ts.len(),
{
    if ts.len() == 0 {
        DEAD
    } else if ts[0].0.has(c) {
        ts[0].1
    } else {
        first_target(ts.drop_first(), c)
    }
}

/// The edge classes of a state, in order.
pub open spec fn edge_sets(ts: Seq<(CharSet, usize)>) -> Seq<CharSet> {
    ts.map_values(|t: (CharSet, usize)| t.0)
}

impl Dfa {
    /// Edge targets name states, and [`DEAD`] rejects and has no edges.
    pub open spec fn wf(&self) -> bool {
        &&& self.states@.len() >= 1
        &&& self.start < self.states@.len()
        &&& forall|q: int, k: int|
            0 <= q < self.states@.len() && 0 <= k < self.states@[q].transitions@.len()
                ==> #[trigger] self.states@[q].transitions@[k].1 < self.states@.len()
        &&& self.states@[DEAD as int].transitions@.len() == 0
        &&& !self.states@[DEAD as int].accepting
    }

    /// The state reached from `q` on `c`.
    pub open spec fn next(&self, q: usize, c: char) -> usize {
        first_target(self.states@[q as int].transitions@, c as int)
    }

    /// The state reached from the start on `w`.
    pub open spec fn run(&self, w: Seq<char>) -> usize
        decreases w.len(),
    {
        if w.len() == 0 {
            self.start
        } else {
            self.next(self.run(w.drop_last()), w.last())
        }
    }

    /// The automaton accepts the whole of `w`.
    pub open spec fn accepts(&self, w: Seq<char>) -> bool {
        self.states@[self.run(w) as int].accepting
    }

    /// The state reached from `q` on `w`, reading from the front.
    pub open spec fn run_from(&self, q: usize, w: Seq<char>) -> usize
        decreases w.len(),
    {
        if w.len() == 0 {
            q
        } else {
            self.run_from(self.next(q, w[0]), w.drop_first())
        }
    }

    /// Started in `q`, the automaton accepts the whole of `w`.
    pub open spec fn accepts_from(&self, q: usize, w: Seq<char>) -> bool {
        self.states@[self.run_from(q, w) as int].accepting
    }

    /// Some string is accepted from one of `p`, `q` and not from the other.
    pub open spec fn distinguishable(&self, p: usize, q: usize) -> bool {
        exists|w: Seq<char>| #[trigger] self.accepts_from(p, w) != self.accepts_from(q, w)
    }

    /// Every edge class holds only scalar values.
    pub open spec fn scalar_edges(&self) -> bool {
        forall|q: int, k: int, v: int|
            0 <= q < self.states@.len() && 0 <= k < self.states@[q].transitions@.len()
                && #[trigger] self.states@[q].transitions@[k].0.has(v) ==> crate::charset::is_scalar(v)
    }
}

proof fn lemma_first_target_bound(ts: Seq<(CharSet, usize)>, c: int, n: int)
    requires
        n > DEAD,
        forall|k: int| 0 <= k < ts.len() ==> #[trigger] ts[k].1 < n,
    ensures
        first_target(ts, c) < n,
    decreases ts.len(),
{
    if ts.len() > 0 && !ts[0].0.has(c) {
        assert forall|k: int| 0 <= k < ts.drop_first().len() implies #[trigger] ts.drop_first()[k].1 < n by {
            assert(ts.drop_first()[k] == ts[k + 1]);
        }
        lemma_first_target_bound(ts.drop_first(), c, n);
    }
}

/// Two characters every class treats alike take the same edge.
proof fn lemma_first_target_alike(ts: Seq<(CharSet, usize)>, c: int, d: int)
    requires
        same_membership(edge_sets(ts), c, d),
    ensures
        first_target(ts, c) == first_target(ts, d),
    decreases ts.len(),
{
    if ts.len() > 0 {
        assert(edge_sets(ts)[0] == ts[0].0);
        let rest = ts.drop_first();
        assert forall|k: int| 0 <= k < edge_sets(rest).len() implies (#[trigger] edge_sets(rest)[k].has(c) <==> edge_sets(
            rest,
        )[k].has(d)) by {
            assert(edge_sets(rest)[k] == edge_sets(ts)[k + 1]);
        }
        lemma_first_target_alike(rest, c, d);
    }
}

/// A character no class holds takes no edge.
proof fn lemma_first_target_none(ts: Seq<(CharSet, usize)>, c: int)
    requires
        !any_has(edge_sets(ts), c),
    ensures
        first_target(ts, c) == DEAD,
    decreases ts.len(),
{
    if ts.len() > 0 {
        assert(edge_sets(ts)[0] == ts[0].0);
        let rest = ts.drop_first();
        if any_has(edge_sets(rest), c) {
            let k = choose|k: int| 0 <= k < edge_sets(rest).len() && #[trigger] edge_sets(rest)[k].has(c);
            assert(edge_sets(rest)[k] == edge_sets(ts)[k + 1]);
        }
        lemma_first_target_none(rest, c);
    }
}

impl Dfa {
    pub proof fn lemma_run_bound(&self, w: Seq<char>)
        requires
            self.wf(),
        ensures
            self.run(w) < self.states@.len(),
        decreases w.len(),
    {
        if w.len() > 0 {
            self.lemma_run_bound(w.drop_last());
            let q = self.run(w.drop_last());
            assert forall|k: int| 0 <= k < self.states@[q as int].transitions@.len() implies #[trigger] self.states@[q as int].transitions@[k].1
                < self.states@.len() by {}
            lemma_first_target_bound(self.states@[q as int].transitions@, w.last() as int, self.states@.len() as int);
        }
    }

    pub proof fn lemma_next_bound(&self, q: usize, c: char)
        requires
            self.wf(),
            q < self.states@.len(),
        ensures
            self.next(q, c) < self.states@.len(),
    {
        let ts = self.states@[q as int].transitions@;
        assert forall|k: int| 0 <= k < ts.len() implies #[trigger] ts[k].1 < self.states@.len() by {
            assert(self.states@[q as int].transitions@[k].1 < self.states@.len());
        }
        lemma_first_target_bound(ts, c as int, self.states@.len() as int);
    }

    pub proof fn lemma_run_push(&self, w: Seq<char>, c: char)
        ensures
            self.run(w.push(c)) == self.next(self.run(w), c),
    {
        assert(w.push(c).drop_last() =~= w);
    }

    pub proof fn lemma_run_from_bound(&self, q: usize, w: Seq<char>)
        requires
            self.wf(),
            q < self.states@.len(),
        ensures
            self.run_from(q, w) < self.states@.len(),
        decreases w.len(),
    {
        if w.len() > 0 {
            self.lemma_next_bound(q, w[0]);
            self.lemma_run_from_bound(self.next(q, w[0]), w.drop_first());
        }
    }

    /// The dead state keeps every string that reaches it out.
    pub proof fn lemma_dead_stays(&self, w: Seq<char>)
        requires
            self.wf(),
            self.start == DEAD,
        ensures
            self.run(w) == DEAD,
        decreases w.len(),
    {
        if w.len() > 0 {
            self.lemma_dead_stays(w.drop_last());
        }
    }
}

/// The state `state_id` goes to on `ch`: the target of its first edge whose
/// class holds `ch`, [`DEAD`] when none does.
pub fn lookup_transition(dfa: &Dfa, state_id: usize, ch: char) -> (r: usize)
    requires
        state_id < dfa.states@.len(),
    ensures
        r == dfa.next(state_id, ch),
{
    let transitions = &dfa.states[state_id].transitions;
    let mut k: usize = 0;
    proof {
        assert(transitions@.subrange(0, transitions@.len() as int) =~= transitions@);
    }
    while k < transitions.len()
        invariant
            *transitions == dfa.states@[state_id as int].transitions,
            k <= transitions@.len(),
            first_target(transitions@, ch as int) == first_target(transitions@.subrange(k as int, transitions@.len() as int), ch as int),
        decreases transitions@.len() - k,
    {
        let ghost rest = transitions@.subrange(k as int, transitions@.len() as int);
        if transitions[k].0.contains(ch) {
            proof {
                assert(rest[0] == transitions@[k as int]);
            }
            return transitions[k].1;
        }
        proof {
            assert(rest[0] == transitions@[k as int]);
            assert(rest.drop_first() =~= transitions@.subrange(k + 1, transitions@.len() as int));
        }
        k += 1;
    }
    proof {
        assert(transitions@.subrange(k as int, transitions@.len() as int).len() == 0);
    }
    DEAD
}

/// The edge classes of a state, as references.
fn state_sets<'a>(dfa: &'a Dfa, state_id: usize) -> (r: Vec<&'a CharSet>)
    requires
        state_id < dfa.states@.len(),
    ensures
        source_sets(r@) == edge_sets(dfa.states@[state_id as int].transitions@),
{
    let transitions = &dfa.states[state_id].transitions;
    let mut out: Vec<&'a CharSet> = Vec::new();
    let mut k: usize = 0;
    while k < transitions.len()
        invariant
            *transitions == dfa.states@[state_id as int].transitions,
            k <= transitions@.len(),
            source_sets(out@) == edge_sets(transitions@.subrange(0, k as int)),
        decreases transitions@.len() - k,
    {
        let ghost before = out@;
        out.push(&transitions[k].0);
        proof {
            assert(source_sets(out@) =~= source_sets(before).push(transitions@[k as int].0));
            assert(edge_sets(transitions@.subrange(0, k + 1)) =~= edge_sets(transitions@.subrange(0, k as int)).push(
                transitions@[k as int].0,
            ));
        }
        k += 1;
    }
    proof {
        assert(transitions@.subrange(0, k as int) =~= transitions@);
    }
    out
}

/// The relation name for a string accepted (or not) by each automaton.
fn dfa_classify_relation(query: Query, left_accepts: bool, right_accepts: bool) -> (r: Option<&'static str>)
    ensures
        match r {
            Some(s) => relation_of(query, left_accepts, right_accepts) == Some(s@),
            None => relation_of(query, left_accepts, right_accepts) is None,
        },
{
    match query {
        Query::Overlap => if left_accepts && right_accepts {
            Some(relation::IN_BOTH)
        } else {
            None
        },
        Query::Includes => if left_accepts && !right_accepts {
            Some(relation::LEFT_ONLY)
        } else {
            None
        },
        Query::Equivalent => if left_accepts && !right_accepts {
            Some(relation::LEFT_ONLY)
        } else if !left_accepts && right_accepts {
            Some(relation::RIGHT_ONLY)
        } else {
            None
        },
        Query::Empty => None,
    }
}

/// A result for a search that stopped without a witness.
fn timed_out(status: BackendStatus, visited_states: usize, generated_transitions: usize, started: &Instant) -> (r:
    BackendResult)
    ensures
        r.status == status,
        r.witness is None,
        r.relation is None,
        r.visited_states == visited_states,
        r.generated_transitions == generated_transitions,
        r.witness_extraction_ms == 0,
{
    BackendResult {
        status,
        witness: None,
        relation: None,
        visited_states,
        generated_transitions,
        analysis_ms: elapsed_ms(started),
        witness_extraction_ms: 0,
    }
}


/// Some node holds the pair of states `(a, b)`.
spec fn has_dpair(nodes: Seq<SearchNode<(usize, usize)>>, a: usize, b: usize) -> bool {
    exists|j: int| 0 <= j < nodes.len() && (#[trigger] nodes[j]).key == (a, b)
}

/// The edge classes leaving both states of `key`.
spec fn dpair_sets(left: Dfa, right: Dfa, key: (usize, usize)) -> Seq<CharSet> {
    edge_sets(left.states@[key.0 as int].transitions@) + edge_sets(right.states@[key.1 as int].transitions@)
}

/// Some node no deeper than `d` holds the pair of states `(a, b)`.
spec fn has_dpair_within(nodes: Seq<SearchNode<(usize, usize)>>, a: usize, b: usize, d: nat) -> bool {
    exists|j: int| 0 <= j < nodes.len() && (#[trigger] nodes[j]).key == (a, b) && path_word(nodes, j).len() <= d
}

/// Every character some edge out of node `i` carries leads to a node at
/// most one deeper.
spec fn dpair_closed(left: Dfa, right: Dfa, nodes: Seq<SearchNode<(usize, usize)>>, i: int) -> bool {
    forall|c: char|
        #[trigger] any_has(dpair_sets(left, right, nodes[i].key), c as int) ==> has_dpair_within(
            nodes,
            left.next(nodes[i].key.0, c),
            right.next(nodes[i].key.1, c),
            path_word(nodes, i).len() + 1,
        )
}

proof fn lemma_has_dpair_push(nodes: Seq<SearchNode<(usize, usize)>>, x: SearchNode<(usize, usize)>, a: usize, b: usize, d: nat)
    requires
        has_dpair_within(nodes, a, b, d),
    ensures
        has_dpair_within(nodes.push(x), a, b, d),
{
    let j = choose|j: int| 0 <= j < nodes.len() && (#[trigger] nodes[j]).key == (a, b) && path_word(nodes, j).len() <= d;
    assert(nodes.push(x)[j] == nodes[j]);
    lemma_path_word_push(nodes, x, j);
}

proof fn lemma_dpair_closed_push(left: Dfa, right: Dfa, nodes: Seq<SearchNode<(usize, usize)>>, x: SearchNode<(usize, usize)>, i: int)
    requires
        0 <= i < nodes.len(),
        dpair_closed(left, right, nodes, i),
    ensures
        dpair_closed(left, right, nodes.push(x), i),
{
    let longer = nodes.push(x);
    assert(longer[i] == nodes[i]);
    lemma_path_word_push(nodes, x, i);
    assert forall|c: char| #[trigger] any_has(dpair_sets(left, right, longer[i].key), c as int) implies has_dpair_within(
        longer,
        left.next(longer[i].key.0, c),
        right.next(longer[i].key.1, c),
        path_word(longer, i).len() + 1,
    ) by {
        assert(any_has(dpair_sets(left, right, nodes[i].key), c as int));
        lemma_has_dpair_push(nodes, x, left.next(nodes[i].key.0, c), right.next(nodes[i].key.1, c), path_word(nodes, i).len() + 1);
    }
}

proof fn lemma_split_sets(a: Seq<CharSet>, b: Seq<CharSet>, c: int, d: int)
    ensures
        same_membership(a + b, c, d) ==> same_membership(a, c, d) && same_membership(b, c, d),
        !any_has(a + b, c) ==> !any_has(a, c) && !any_has(b, c),
{
    if same_membership(a + b, c, d) {
        assert forall|k: int| 0 <= k < a.len() implies (#[trigger] a[k].has(c) <==> a[k].has(d)) by {
            assert((a + b)[k] == a[k]);
        }
        assert forall|k: int| 0 <= k < b.len() implies (#[trigger] b[k].has(c) <==> b[k].has(d)) by {
            assert((a + b)[a.len() + k] == b[k]);
        }
    }
    if any_has(a, c) {
        let k = choose|k: int| 0 <= k < a.len() && #[trigger] a[k].has(c);
        assert((a + b)[k] == a[k]);
    }
    if any_has(b, c) {
        let k = choose|k: int| 0 <= k < b.len() && #[trigger] b[k].has(c);
        assert((a + b)[a.len() + k] == b[k]);
    }
}

/// The edge classes of a state hold only scalar values.
proof fn lemma_state_sets_scalar(d: Dfa, q: int)
    requires
        d.scalar_edges(),
        0 <= q < d.states@.len(),
    ensures
        sets_scalar(edge_sets(d.states@[q].transitions@)),
{
    let all = edge_sets(d.states@[q].transitions@);
    assert forall|k: int, v: int| 0 <= k < all.len() && #[trigger] all[k].has(v) implies crate::charset::is_scalar(v) by {
        assert(all[k] == d.states@[q].transitions@[k].0);
    }
}

/// Every string leads both automata to a node's pair, or to the dead pair.
proof fn lemma_dpair_reach(left: Dfa, right: Dfa, nodes: Seq<SearchNode<(usize, usize)>>, w: Seq<char>)
    requires
        left.wf(),
        right.wf(),
        has_dpair(nodes, left.start, right.start),
        forall|i: int| 0 <= i < nodes.len() ==> #[trigger] dpair_closed(left, right, nodes, i),
    ensures
        has_dpair(nodes, left.run(w), right.run(w)) || (left.run(w) == DEAD && right.run(w) == DEAD),
    decreases w.len(),
{
    if w.len() > 0 {
        let prefix = w.drop_last();
        let c = w.last();
        lemma_dpair_reach(left, right, nodes, prefix);
        left.lemma_run_push(prefix, c);
        right.lemma_run_push(prefix, c);
        assert(prefix.push(c) =~= w);
        if has_dpair(nodes, left.run(prefix), right.run(prefix)) {
            let j = choose|j: int| 0 <= j < nodes.len() && (#[trigger] nodes[j]).key == (left.run(prefix), right.run(prefix));
            let key = nodes[j].key;
            if any_has(dpair_sets(left, right, key), c as int) {
                assert(dpair_closed(left, right, nodes, j));
                let k = choose|k: int|
                    0 <= k < nodes.len() && (#[trigger] nodes[k]).key == (left.next(key.0, c), right.next(key.1, c))
                        && path_word(nodes, k).len() <= path_word(nodes, j).len() + 1;
                assert(nodes[k].key == (left.run(w), right.run(w)));
            } else {
                lemma_split_sets(edge_sets(left.states@[key.0 as int].transitions@), edge_sets(right.states@[key.1 as int].transitions@), c as int, c as int);
                lemma_first_target_none(left.states@[key.0 as int].transitions@, c as int);
                lemma_first_target_none(right.states@[key.1 as int].transitions@, c as int);
            }
        }
    }
}

/// While every node above node `head` is closed, a string shorter than
/// node `head`'s leads to a node no deeper than the string, or to the dead
/// pair.
proof fn lemma_dpair_reach_within(left: Dfa, right: Dfa, nodes: Seq<SearchNode<(usize, usize)>>, head: int, w: Seq<char>)
    requires
        left.wf(),
        right.wf(),
        0 <= head < nodes.len(),
        nodes[0].parent is None,
        nodes[0].key == (left.start, right.start),
        crate::analysis::depth_sorted(nodes),
        forall|i: int| 0 <= i < head ==> #[trigger] dpair_closed(left, right, nodes, i),
        w.len() < path_word(nodes, head).len(),
    ensures
        has_dpair_within(nodes, left.run(w), right.run(w), w.len()) || (left.run(w) == DEAD && right.run(w) == DEAD),
    decreases w.len(),
{
    if w.len() == 0 {
        assert(w =~= Seq::<char>::empty());
        assert(path_word(nodes, 0) =~= Seq::<char>::empty());
        assert(nodes[0].key == (left.run(w), right.run(w)));
    } else {
        let prefix = w.drop_last();
        let c = w.last();
        lemma_dpair_reach_within(left, right, nodes, head, prefix);
        left.lemma_run_push(prefix, c);
        right.lemma_run_push(prefix, c);
        assert(prefix.push(c) =~= w);
        if has_dpair_within(nodes, left.run(prefix), right.run(prefix), prefix.len()) {
            let j = choose|j: int|
                0 <= j < nodes.len() && (#[trigger] nodes[j]).key == (left.run(prefix), right.run(prefix)) && path_word(nodes, j).len()
                    <= prefix.len();
            if j >= head {
                assert(path_word(nodes, head).len() <= path_word(nodes, j).len());
            }
            let key = nodes[j].key;
            if any_has(dpair_sets(left, right, key), c as int) {
                assert(dpair_closed(left, right, nodes, j));
                let k = choose|k: int|
                    0 <= k < nodes.len() && (#[trigger] nodes[k]).key == (left.next(key.0, c), right.next(key.1, c))
                        && path_word(nodes, k).len() <= path_word(nodes, j).len() + 1;
                assert(nodes[k].key == (left.run(w), right.run(w)));
            } else {
                lemma_split_sets(edge_sets(left.states@[key.0 as int].transitions@), edge_sets(right.states@[key.1 as int].transitions@), c as int, c as int);
                lemma_first_target_none(left.states@[key.0 as int].transitions@, c as int);
                lemma_first_target_none(right.states@[key.1 as int].transitions@, c as int);
            }
        }
    }
}

/// Breadth-first search over pairs of states of two automata, trying one
/// character per range on which every outgoing class agrees, lowest first.
/// A string found settles `query` on the two automata; running out of pairs
/// proves that no string does.
fn dfa_product_search<K: Clock>(
    query: Query,
    left: &Dfa,
    right: &Dfa,
    config: &Config,
    started: Instant,
    clock: &K,
) -> (r: BackendResult)
    requires
        left.wf(),
        right.wf(),
        left.scalar_edges(),
        right.scalar_edges(),
    ensures
        (r.status == BackendStatus::Found) == (r.witness is Some),
        (r.status == BackendStatus::Found) == (r.relation is Some),
        r.status == BackendStatus::Found ==> (r.witness matches Some(w) && r.relation matches Some(rel) && relation_of(
            query,
            left.accepts(w@),
            right.accepts(w@),
        ) == Some(rel@)),
        r.status == BackendStatus::Exhausted ==> forall|w: Seq<char>|
            #[trigger] relation_of(query, left.accepts(w), right.accepts(w)) is None,
        r.status == BackendStatus::Found ==> (r.witness matches Some(w) && forall|u: Seq<char>|
            u.len() < w@.len() ==> #[trigger] relation_of(query, left.accepts(u), right.accepts(u)) is None),
        r.status == BackendStatus::StateLimit ==> r.visited_states >= config.max_product_states,
        r.visited_states <= state_budget(config.max_product_states),
        r.status != BackendStatus::Found ==> r.witness_extraction_ms == 0,
        r.status == BackendStatus::Timeout ==> exists|t: u128| #[trigger] clock.may_read(t) && t >= config.timeout_ms as u128,
        r.status == BackendStatus::StateLimit ==> exists|ws: Seq<Seq<char>>|
            ws.len() >= config.max_product_states && forall|i: int, j: int|
                0 <= i < j < ws.len() ==> left.run(#[trigger] ws[i]) != left.run(#[trigger] ws[j]) || right.run(ws[i])
                    != right.run(ws[j]),
{
    let mut nodes: Vec<SearchNode<(usize, usize)>> = Vec::new();
    nodes.push(SearchNode { key: (left.start, right.start), parent: None });
    let mut buckets = empty_buckets();
    let first_slot = (left.start % BUCKETS * 31 + right.start % BUCKETS) % BUCKETS;
    bucket_add(&mut buckets, first_slot, 0);
    proof {
        let b = first_slot as int;
        assert(buckets@[b]@[buckets@[b]@.len() - 1] == 0);
        assert(in_bucket(buckets@, dslot_of(nodes@[0].key), 0));
    }
    let mut head: usize = 0;
    let mut generated_transitions: usize = 0;
    let ghost limit: int = if config.max_product_states == 0 {
        1
    } else {
        config.max_product_states as int
    };
    proof {
        assert(path_word(nodes@, 0) =~= Seq::<char>::empty());
    }
    while head < nodes.len()
        invariant
            left.wf(),
            right.wf(),
            left.scalar_edges(),
            right.scalar_edges(),
            limit == if config.max_product_states == 0 {
                1
            } else {
                config.max_product_states as int
            },
            1 <= nodes@.len() <= limit,
            head <= nodes@.len(),
            parents_ok(nodes@),
            nodes@[0].parent is None,
            nodes@[0].key == (left.start, right.start),
            forall|j: int|
                0 <= j < nodes@.len() ==> (#[trigger] nodes@[j]).key == (left.run(path_word(nodes@, j)), right.run(
                    path_word(nodes@, j),
                )),
            buckets_ok(buckets@, nodes@.len() as int),
            dpairs_indexed(buckets@, nodes@),
            forall|i: int| 0 <= i < head ==> #[trigger] dpair_closed(*left, *right, nodes@, i),
            forall|i: int|
                0 <= i < head ==> relation_of(
                    query,
                    left.states@[(#[trigger] nodes@[i]).key.0 as int].accepting,
                    right.states@[nodes@[i].key.1 as int].accepting,
                ) is None,
            crate::analysis::depth_sorted(nodes@),
            head < nodes@.len() ==> forall|j: int|
                0 <= j < nodes@.len() ==> #[trigger] path_word(nodes@, j).len() <= path_word(nodes@, head as int).len() + 1,
        decreases limit - head,
    {
        if clock.read_ms() >= config.timeout_ms as u128 {
            return timed_out(BackendStatus::Timeout, nodes.len(), generated_transitions, &started);
        }
        let node_id = head;
        let (l_id, r_id) = nodes[node_id].key;
        let ghost word = path_word(nodes@, node_id as int);
        proof {
            assert(nodes@[node_id as int].key == (left.run(word), right.run(word)));
            left.lemma_run_bound(word);
            right.lemma_run_bound(word);
        }
        let left_accepts = left.states[l_id].accepting;
        let right_accepts = right.states[r_id].accepting;
        if let Some(rel) = dfa_classify_relation(query, left_accepts, right_accepts) {
            let analysis_ms = elapsed_ms(&started);
            let witness_started = instant_now();
            let witness = reconstruct(&nodes, node_id);
            let witness_extraction_ms = elapsed_ms(&witness_started);
            proof {
                assert forall|u: Seq<char>| u.len() < witness@.len() implies #[trigger] relation_of(
                    query,
                    left.accepts(u),
                    right.accepts(u),
                ) is None by {
                    lemma_dpair_reach_within(*left, *right, nodes@, head as int, u);
                    if has_dpair_within(nodes@, left.run(u), right.run(u), u.len()) {
                        let j = choose|j: int|
                            0 <= j < nodes@.len() && (#[trigger] nodes@[j]).key == (left.run(u), right.run(u)) && path_word(
                                nodes@,
                                j,
                            ).len() <= u.len();
                        if j >= head {
                            assert(path_word(nodes@, head as int).len() <= path_word(nodes@, j).len());
                        }
                        assert(relation_of(
                            query,
                            left.states@[nodes@[j].key.0 as int].accepting,
                            right.states@[nodes@[j].key.1 as int].accepting,
                        ) is None);
                    }
                }
            }
            return BackendResult {
                status: BackendStatus::Found,
                witness: Some(witness),
                relation: Some(rel.to_owned()),
                visited_states: nodes.len(),
                generated_transitions,
                analysis_ms,
                witness_extraction_ms,
            };
        }
        let mut combined = state_sets(left, l_id);
        let mut right_sets = state_sets(right, r_id);
        let ghost lsets = combined@;
        let ghost rsets = right_sets@;
        combined.append(&mut right_sets);
        let representatives = representative_chars(&combined);
        proof {
            assert(combined@ == lsets + rsets);
            assert(source_sets(combined@) =~= source_sets(lsets) + source_sets(rsets));
            assert(source_sets(combined@) == dpair_sets(*left, *right, (l_id, r_id)));
            lemma_state_sets_scalar(*left, l_id as int);
            lemma_state_sets_scalar(*right, r_id as int);
            let all = dpair_sets(*left, *right, (l_id, r_id));
            let a = edge_sets(left.states@[l_id as int].transitions@);
            let b = edge_sets(right.states@[r_id as int].transitions@);
            assert forall|k: int, v: int| 0 <= k < all.len() && #[trigger] all[k].has(v) implies crate::charset::is_scalar(v) by {
                if k < a.len() {
                    assert(all[k] == a[k]);
                } else {
                    assert(all[k] == b[k - a.len()]);
                }
            }
        }
        let mut t: usize = 0;
        while t < representatives.len()
            invariant
                left.wf(),
                right.wf(),
                left.scalar_edges(),
                right.scalar_edges(),
                limit == if config.max_product_states == 0 {
                    1
                } else {
                    config.max_product_states as int
                },
                1 <= nodes@.len() <= limit,
                node_id == head,
                head < nodes@.len(),
                nodes@[node_id as int].key == (l_id, r_id),
                l_id < left.states@.len(),
                r_id < right.states@.len(),
                word == path_word(nodes@, node_id as int),
                l_id == left.run(word),
                r_id == right.run(word),
                parents_ok(nodes@),
                nodes@[0].parent is None,
                nodes@[0].key == (left.start, right.start),
                forall|j: int|
                    0 <= j < nodes@.len() ==> (#[trigger] nodes@[j]).key == (left.run(path_word(nodes@, j)), right.run(
                        path_word(nodes@, j),
                    )),
                buckets_ok(buckets@, nodes@.len() as int),
                dpairs_indexed(buckets@, nodes@),
                forall|i: int| 0 <= i < head ==> #[trigger] dpair_closed(*left, *right, nodes@, i),
                forall|i: int|
                    0 <= i < head ==> relation_of(
                        query,
                        left.states@[(#[trigger] nodes@[i]).key.0 as int].accepting,
                        right.states@[nodes@[i].key.1 as int].accepting,
                    ) is None,
                crate::analysis::depth_sorted(nodes@),
                forall|j: int| 0 <= j < nodes@.len() ==> #[trigger] path_word(nodes@, j).len() <= word.len() + 1,
                t <= representatives@.len(),
                forall|m: int|
                    0 <= m < t ==> has_dpair_within(
                        nodes@,
                        left.next(l_id, #[trigger] representatives@[m]),
                        right.next(r_id, representatives@[m]),
                        word.len() + 1,
                    ),
            decreases representatives@.len() - t,
        {
            if clock.read_ms() >= config.timeout_ms as u128 {
                return timed_out(BackendStatus::Timeout, nodes.len(), generated_transitions, &started);
            }
            let ch = representatives[t];
            generated_transitions = generated_transitions.saturating_add(1);
            let next_key = (lookup_transition(left, l_id, ch), lookup_transition(right, r_id, ch));
            let slot = (next_key.0 % BUCKETS * 31 + next_key.1 % BUCKETS) % BUCKETS;
            if find_dpair(&buckets, &nodes, slot, next_key) {
                proof {
                    let j = choose|j: int| 0 <= j < nodes@.len() && (#[trigger] nodes@[j]).key == (next_key.0, next_key.1);
                    assert(path_word(nodes@, j).len() <= word.len() + 1);
                    assert(has_dpair_within(nodes@, next_key.0, next_key.1, word.len() + 1));
                }
            } else {
                if nodes.len() >= config.max_product_states {
                    proof {
                        let ws = Seq::new(nodes@.len(), |j: int| path_word(nodes@, j));
                        assert forall|i: int, j: int| 0 <= i < j < ws.len() implies left.run(#[trigger] ws[i]) != left.run(
                            #[trigger] ws[j],
                        ) || right.run(ws[i]) != right.run(ws[j]) by {
                            assert(nodes@[i].key == (left.run(path_word(nodes@, i)), right.run(path_word(nodes@, i))));
                            assert(nodes@[j].key == (left.run(path_word(nodes@, j)), right.run(path_word(nodes@, j))));
                        }
                    }
                    return timed_out(BackendStatus::StateLimit, nodes.len(), generated_transitions, &started);
                }
                proof {
                    assert forall|j: int| 0 <= j < nodes@.len() implies (#[trigger] nodes@[j]).key != next_key by {
                        if nodes@[j].key == next_key {
                            assert(in_bucket(buckets@, dslot_of(nodes@[j].key), j));
                            let e = choose|e: int|
                                0 <= e < buckets@[slot as int]@.len() && buckets@[slot as int]@[e] == j;
                            assert(dpair_key_is(nodes@, buckets@[slot as int]@[e], next_key));
                        }
                    }
                }
                let next_id = nodes.len();
                let ghost before = nodes@;
                let ghost buckets_before = buckets@;
                let node = SearchNode { key: next_key, parent: Some((node_id, ch)) };
                nodes.push(node);
                bucket_add(&mut buckets, slot, next_id);
                proof {
                    assert(nodes@ == before.push(node));
                    lemma_dpairs_indexed_push(buckets_before, buckets@, before, node);
                    assert forall|j: int| 0 <= j < nodes@.len() implies match #[trigger] nodes@[j].parent {
                        Some(edge) => edge.0 < j,
                        None => true,
                    } by {
                        if j < before.len() {
                            assert(nodes@[j] == before[j]);
                        }
                    }
                    lemma_path_word_push(before, node, node_id as int);
                    assert(path_word(nodes@, next_id as int) == path_word(before, node_id as int).push(ch));
                    left.lemma_run_push(word, ch);
                    right.lemma_run_push(word, ch);
                    assert forall|j: int| 0 <= j < nodes@.len() implies (#[trigger] nodes@[j]).key == (left.run(
                        path_word(nodes@, j),
                    ), right.run(path_word(nodes@, j))) by {
                        if j < before.len() {
                            lemma_path_word_push(before, node, j);
                            assert(nodes@[j] == before[j]);
                        }
                    }
                    assert forall|i: int| 0 <= i < head implies #[trigger] dpair_closed(*left, *right, nodes@, i) by {
                        lemma_dpair_closed_push(*left, *right, before, node, i);
                    }
                    assert forall|i: int|
                        0 <= i < head implies relation_of(
                            query,
                            left.states@[(#[trigger] nodes@[i]).key.0 as int].accepting,
                            right.states@[nodes@[i].key.1 as int].accepting,
                        ) is None by {
                        assert(nodes@[i] == before[i]);
                    }
                    assert forall|m: int| 0 <= m < t implies has_dpair_within(
                        nodes@,
                        left.next(l_id, #[trigger] representatives@[m]),
                        right.next(r_id, representatives@[m]),
                        word.len() + 1,
                    ) by {
                        lemma_has_dpair_push(
                            before,
                            node,
                            left.next(l_id, representatives@[m]),
                            right.next(r_id, representatives@[m]),
                            word.len() + 1,
                        );
                    }
                    assert forall|j: int| 0 <= j < nodes@.len() implies #[trigger] path_word(nodes@, j).len() <= word.len() + 1 by {
                        if j < before.len() {
                            lemma_path_word_push(before, node, j);
                        }
                    }
                    assert forall|i: int, j: int|
                        0 <= i <= j < nodes@.len() implies #[trigger] path_word(nodes@, i).len() <= #[trigger] path_word(
                        nodes@,
                        j,
                    ).len() by {
                        if j < before.len() {
                            lemma_path_word_push(before, node, i);
                            lemma_path_word_push(before, node, j);
                        } else if i < before.len() {
                            lemma_path_word_push(before, node, i);
                        }
                    }
                    assert(nodes@[next_id as int].key == next_key);
                    assert(has_dpair_within(nodes@, next_key.0, next_key.1, word.len() + 1));
                    assert(nodes@[node_id as int] == before[node_id as int]);
                    assert(nodes@[0] == before[0]);
                }
            }
            proof {
                assert(has_dpair_within(nodes@, left.next(l_id, ch), right.next(r_id, ch), word.len() + 1));
            }
            t += 1;
        }
        proof {
            let all = dpair_sets(*left, *right, (l_id, r_id));
            assert forall|c: char| #[trigger] any_has(dpair_sets(*left, *right, nodes@[node_id as int].key), c as int) implies has_dpair_within(
                nodes@,
                left.next(nodes@[node_id as int].key.0, c),
                right.next(nodes@[node_id as int].key.1, c),
                path_word(nodes@, node_id as int).len() + 1,
            ) by {
                let m = choose|m: int| 0 <= m < representatives@.len() && same_membership(all, c as int, #[trigger] representatives@[m] as int);
                let d = representatives@[m];
                lemma_split_sets(edge_sets(left.states@[l_id as int].transitions@), edge_sets(right.states@[r_id as int].transitions@), c as int, d as int);
                lemma_first_target_alike(left.states@[l_id as int].transitions@, c as int, d as int);
                lemma_first_target_alike(right.states@[r_id as int].transitions@, c as int, d as int);
            }
            assert(dpair_closed(*left, *right, nodes@, node_id as int));
        }
        head += 1;
    }
    proof {
        assert(has_dpair(nodes@, left.start, right.start));
        assert forall|w: Seq<char>| #[trigger] relation_of(query, left.accepts(w), right.accepts(w)) is None by {
            lemma_dpair_reach(*left, *right, nodes@, w);
            if has_dpair(nodes@, left.run(w), right.run(w)) {
                let j = choose|j: int| 0 <= j < nodes@.len() && (#[trigger] nodes@[j]).key == (left.run(w), right.run(w));
            }
        }
    }
    timed_out(BackendStatus::Exhausted, nodes.len(), generated_transitions, &started)
}

/// The bucket a pair of states is filed under.
spec fn dslot_of(key: (usize, usize)) -> int {
    (key.0 % BUCKETS * 31 + key.1 % BUCKETS) % (BUCKETS as int)
}

/// Every node is filed under its pair's bucket, and no two nodes hold the
/// same pair.
spec fn dpairs_indexed(buckets: Seq<Vec<usize>>, nodes: Seq<SearchNode<(usize, usize)>>) -> bool {
    &&& forall|j: int| 0 <= j < nodes.len() ==> #[trigger] in_bucket(buckets, dslot_of(nodes[j].key), j)
    &&& forall|i: int, j: int| 0 <= i < j < nodes.len() ==> (#[trigger] nodes[i]).key != (#[trigger] nodes[j]).key
}

/// Filing a node with a new pair keeps the nodes indexed.
proof fn lemma_dpairs_indexed_push(
    before: Seq<Vec<usize>>,
    after: Seq<Vec<usize>>,
    nodes: Seq<SearchNode<(usize, usize)>>,
    node: SearchNode<(usize, usize)>,
)
    requires
        dpairs_indexed(before, nodes),
        nodes.len() <= usize::MAX,
        before.len() == BUCKETS,
        after.len() == before.len(),
        after[dslot_of(node.key)]@ == before[dslot_of(node.key)]@.push(nodes.len() as usize),
        forall|b: int| 0 <= b < before.len() && b != dslot_of(node.key) ==> #[trigger] after[b] == before[b],
        forall|j: int| 0 <= j < nodes.len() ==> (#[trigger] nodes[j]).key != node.key,
    ensures
        dpairs_indexed(after, nodes.push(node)),
{
    let all = nodes.push(node);
    let slot = dslot_of(node.key);
    assert forall|j: int| 0 <= j < all.len() implies #[trigger] in_bucket(after, dslot_of(all[j].key), j) by {
        if j < nodes.len() {
            assert(all[j] == nodes[j]);
            assert(in_bucket(before, dslot_of(nodes[j].key), j));
            let b = dslot_of(nodes[j].key);
            let e = choose|e: int| 0 <= e < before[b]@.len() && before[b]@[e] == j;
            if b == slot {
                assert(after[b]@[e] == j);
            } else {
                assert(after[b] == before[b]);
            }
        } else {
            assert(all[j] == node);
            assert(after[slot]@[before[slot]@.len() as int] == j);
        }
    }
    assert forall|i: int, j: int| 0 <= i < j < all.len() implies (#[trigger] all[i]).key != (#[trigger] all[j]).key by {
        assert(all[i] == nodes[i]);
        if j < nodes.len() {
            assert(all[j] == nodes[j]);
        }
    }
}

/// Node `id` holds the pair `key`.
spec fn dpair_key_is(nodes: Seq<SearchNode<(usize, usize)>>, id: usize, key: (usize, usize)) -> bool {
    id < nodes.len() && nodes[id as int].key == key
}

/// Some node recorded in bucket `slot` holds the pair `key`.
fn find_dpair(buckets: &Vec<Vec<usize>>, nodes: &Vec<SearchNode<(usize, usize)>>, slot: usize, key: (usize, usize)) -> (r: bool)
    requires
        slot < buckets@.len(),
        buckets_ok(buckets@, nodes@.len() as int),
    ensures
        r ==> has_dpair(nodes@, key.0, key.1),
        r == exists|e: int| 0 <= e < buckets@[slot as int]@.len() && #[trigger] dpair_key_is(nodes@, buckets@[slot as int]@[e], key),
{
    let bucket = &buckets[slot];
    let mut e: usize = 0;
    while e < bucket.len()
        invariant
            slot < buckets@.len(),
            *bucket == buckets@[slot as int],
            buckets_ok(buckets@, nodes@.len() as int),
            e <= bucket@.len(),
            forall|f: int| 0 <= f < e ==> !#[trigger] dpair_key_is(nodes@, bucket@[f], key),
        decreases bucket@.len() - e,
    {
        let id = bucket[e];
        proof {
            assert(buckets@[slot as int]@[e as int] < nodes@.len());
        }
        if nodes[id].key.0 == key.0 && nodes[id].key.1 == key.1 {
            proof {
                assert(nodes@[id as int].key == key);
                assert(dpair_key_is(nodes@, bucket@[e as int], key));
            }
            return true;
        }
        e += 1;
    }
    false
}


/// Some node holds the state `q`.
spec fn has_dstate(nodes: Seq<SearchNode<usize>>, q: usize) -> bool {
    exists|j: int| 0 <= j < nodes.len() && (#[trigger] nodes[j]).key == q
}

/// Some node no deeper than `d` holds the state `q`.
spec fn has_dstate_within(nodes: Seq<SearchNode<usize>>, q: usize, d: nat) -> bool {
    exists|j: int| 0 <= j < nodes.len() && (#[trigger] nodes[j]).key == q && path_word(nodes, j).len() <= d
}

/// Every character some edge out of node `i` carries leads to a node at
/// most one deeper.
spec fn dstate_closed(d: Dfa, nodes: Seq<SearchNode<usize>>, i: int) -> bool {
    forall|c: char|
        #[trigger] any_has(edge_sets(d.states@[nodes[i].key as int].transitions@), c as int) ==> has_dstate_within(
            nodes,
            d.next(nodes[i].key, c),
            path_word(nodes, i).len() + 1,
        )
}

proof fn lemma_has_dstate_push(nodes: Seq<SearchNode<usize>>, x: SearchNode<usize>, q: usize, d: nat)
    requires
        has_dstate_within(nodes, q, d),
    ensures
        has_dstate_within(nodes.push(x), q, d),
{
    let j = choose|j: int| 0 <= j < nodes.len() && (#[trigger] nodes[j]).key == q && path_word(nodes, j).len() <= d;
    assert(nodes.push(x)[j] == nodes[j]);
    lemma_path_word_push(nodes, x, j);
}

proof fn lemma_dstate_closed_push(d: Dfa, nodes: Seq<SearchNode<usize>>, x: SearchNode<usize>, i: int)
    requires
        0 <= i < nodes.len(),
        dstate_closed(d, nodes, i),
    ensures
        dstate_closed(d, nodes.push(x), i),
{
    let longer = nodes.push(x);
    assert(longer[i] == nodes[i]);
    lemma_path_word_push(nodes, x, i);
    assert forall|c: char| #[trigger] any_has(edge_sets(d.states@[longer[i].key as int].transitions@), c as int) implies has_dstate_within(
        longer,
        d.next(longer[i].key, c),
        path_word(longer, i).len() + 1,
    ) by {
        lemma_has_dstate_push(nodes, x, d.next(nodes[i].key, c), path_word(nodes, i).len() + 1);
    }
}

/// Every string leads to a node's state or to the dead state.
proof fn lemma_dstate_reach(d: Dfa, nodes: Seq<SearchNode<usize>>, w: Seq<char>)
    requires
        d.wf(),
        has_dstate(nodes, d.start),
        forall|i: int| 0 <= i < nodes.len() ==> #[trigger] dstate_closed(d, nodes, i),
    ensures
        has_dstate(nodes, d.run(w)) || d.run(w) == DEAD,
    decreases w.len(),
{
    if w.len() > 0 {
        let prefix = w.drop_last();
        let c = w.last();
        lemma_dstate_reach(d, nodes, prefix);
        d.lemma_run_push(prefix, c);
        assert(prefix.push(c) =~= w);
        if has_dstate(nodes, d.run(prefix)) {
            let j = choose|j: int| 0 <= j < nodes.len() && (#[trigger] nodes[j]).key == d.run(prefix);
            if any_has(edge_sets(d.states@[nodes[j].key as int].transitions@), c as int) {
                assert(dstate_closed(d, nodes, j));
                let k = choose|k: int|
                    0 <= k < nodes.len() && (#[trigger] nodes[k]).key == d.next(nodes[j].key, c) && path_word(nodes, k).len()
                        <= path_word(nodes, j).len() + 1;
                assert(nodes[k].key == d.run(w));
            } else {
                lemma_first_target_none(d.states@[nodes[j].key as int].transitions@, c as int);
            }
        }
    }
}

/// While every node above node `head` is closed, a string shorter than
/// node `head`'s leads to a node no deeper than the string, or to the dead
/// state.
proof fn lemma_dstate_reach_within(d: Dfa, nodes: Seq<SearchNode<usize>>, head: int, w: Seq<char>)
    requires
        d.wf(),
        0 <= head < nodes.len(),
        nodes[0].parent is None,
        nodes[0].key == d.start,
        crate::analysis::depth_sorted(nodes),
        forall|i: int| 0 <= i < head ==> #[trigger] dstate_closed(d, nodes, i),
        w.len() < path_word(nodes, head).len(),
    ensures
        has_dstate_within(nodes, d.run(w), w.len()) || d.run(w) == DEAD,
    decreases w.len(),
{
    if w.len() == 0 {
        assert(w =~= Seq::<char>::empty());
        assert(path_word(nodes, 0) =~= Seq::<char>::empty());
        assert(nodes[0].key == d.run(w));
    } else {
        let prefix = w.drop_last();
        let c = w.last();
        lemma_dstate_reach_within(d, nodes, head, prefix);
        d.lemma_run_push(prefix, c);
        assert(prefix.push(c) =~= w);
        if has_dstate_within(nodes, d.run(prefix), prefix.len()) {
            let j = choose|j: int| 0 <= j < nodes.len() && (#[trigger] nodes[j]).key == d.run(prefix) && path_word(nodes, j).len() <= prefix.len();
            if j >= head {
                assert(path_word(nodes, head).len() <= path_word(nodes, j).len());
            }
            if any_has(edge_sets(d.states@[nodes[j].key as int].transitions@), c as int) {
                assert(dstate_closed(d, nodes, j));
                let k = choose|k: int|
                    0 <= k < nodes.len() && (#[trigger] nodes[k]).key == d.next(nodes[j].key, c) && path_word(nodes, k).len()
                        <= path_word(nodes, j).len() + 1;
                assert(nodes[k].key == d.run(w));
            } else {
                lemma_first_target_none(d.states@[nodes[j].key as int].transitions@, c as int);
            }
        }
    }
}

/// Breadth-first search for the nearest accepting state. A string found is
/// accepted; running out of states proves the automaton accepts nothing.
fn dfa_search_single<K: Clock>(dfa: &Dfa, config: &Config, started: Instant, clock: &K) -> (r: BackendResult)
    requires
        dfa.wf(),
        dfa.scalar_edges(),
    ensures
        (r.status == BackendStatus::Found) == (r.witness is Some),
        (r.status == BackendStatus::Found) == (r.relation is Some),
        r.status == BackendStatus::Found ==> (r.witness matches Some(w) && r.relation matches Some(rel) && dfa.accepts(w@)
            && rel@ == relation::IN_LANGUAGE@),
        r.status == BackendStatus::Exhausted ==> forall|w: Seq<char>| !#[trigger] dfa.accepts(w),
        r.status == BackendStatus::Found ==> (r.witness matches Some(w) && forall|u: Seq<char>|
            u.len() < w@.len() ==> !#[trigger] dfa.accepts(u)),
        r.status == BackendStatus::StateLimit ==> r.visited_states >= config.max_product_states,
        r.visited_states <= state_budget(config.max_product_states),
        r.status != BackendStatus::Found ==> r.witness_extraction_ms == 0,
        r.status == BackendStatus::Timeout ==> exists|t: u128| #[trigger] clock.may_read(t) && t >= config.timeout_ms as u128,
        r.status == BackendStatus::StateLimit ==> exists|ws: Seq<Seq<char>>|
            ws.len() >= config.max_product_states && forall|i: int, j: int|
                0 <= i < j < ws.len() ==> dfa.run(#[trigger] ws[i]) != dfa.run(#[trigger] ws[j]),
{
    let mut nodes: Vec<SearchNode<usize>> = Vec::new();
    nodes.push(SearchNode { key: dfa.start, parent: None });
    let mut buckets = empty_buckets();
    let first_slot = dfa.start % BUCKETS;
    bucket_add(&mut buckets, first_slot, 0);
    proof {
        let b = first_slot as int;
        assert(buckets@[b]@[buckets@[b]@.len() - 1] == 0);
        assert(in_bucket(buckets@, (nodes@[0].key % BUCKETS) as int, 0));
    }
    let mut head: usize = 0;
    let mut generated_transitions: usize = 0;
    let ghost limit: int = if config.max_product_states == 0 {
        1
    } else {
        config.max_product_states as int
    };
    proof {
        assert(path_word(nodes@, 0) =~= Seq::<char>::empty());
    }
    while head < nodes.len()
        invariant
            dfa.wf(),
            dfa.scalar_edges(),
            limit == if config.max_product_states == 0 {
                1
            } else {
                config.max_product_states as int
            },
            1 <= nodes@.len() <= limit,
            head <= nodes@.len(),
            parents_ok(nodes@),
            nodes@[0].parent is None,
            nodes@[0].key == dfa.start,
            forall|j: int| 0 <= j < nodes@.len() ==> (#[trigger] nodes@[j]).key == dfa.run(path_word(nodes@, j)),
            buckets_ok(buckets@, nodes@.len() as int),
            dstates_indexed(buckets@, nodes@),
            forall|i: int| 0 <= i < head ==> #[trigger] dstate_closed(*dfa, nodes@, i),
            forall|i: int| 0 <= i < head ==> !dfa.states@[(#[trigger] nodes@[i]).key as int].accepting,
            crate::analysis::depth_sorted(nodes@),
            head < nodes@.len() ==> forall|j: int|
                0 <= j < nodes@.len() ==> #[trigger] path_word(nodes@, j).len() <= path_word(nodes@, head as int).len() + 1,
        decreases limit - head,
    {
        if clock.read_ms() >= config.timeout_ms as u128 {
            return timed_out(BackendStatus::Timeout, nodes.len(), generated_transitions, &started);
        }
        let node_id = head;
        let state_id = nodes[node_id].key;
        let ghost word = path_word(nodes@, node_id as int);
        proof {
            assert(nodes@[node_id as int].key == dfa.run(word));
            dfa.lemma_run_bound(word);
        }
        if dfa.states[state_id].accepting {
            let analysis_ms = elapsed_ms(&started);
            let witness_started = instant_now();
            let witness = reconstruct(&nodes, node_id);
            let witness_extraction_ms = elapsed_ms(&witness_started);
            proof {
                assert forall|u: Seq<char>| u.len() < witness@.len() implies !#[trigger] dfa.accepts(u) by {
                    lemma_dstate_reach_within(*dfa, nodes@, head as int, u);
                    if has_dstate_within(nodes@, dfa.run(u), u.len()) {
                        let j = choose|j: int|
                            0 <= j < nodes@.len() && (#[trigger] nodes@[j]).key == dfa.run(u) && path_word(nodes@, j).len() <= u.len();
                        if j >= head {
                            assert(path_word(nodes@, head as int).len() <= path_word(nodes@, j).len());
                        }
                        assert(!dfa.states@[nodes@[j].key as int].accepting);
                    }
                }
            }
            return BackendResult {
                status: BackendStatus::Found,
                witness: Some(witness),
                relation: Some(relation::IN_LANGUAGE.to_owned()),
                visited_states: nodes.len(),
                generated_transitions,
                analysis_ms,
                witness_extraction_ms,
            };
        }
        let sets = state_sets(dfa, state_id);
        let representatives = representative_chars(&sets);
        proof {
            lemma_state_sets_scalar(*dfa, state_id as int);
        }
        let mut t: usize = 0;
        while t < representatives.len()
            invariant
                dfa.wf(),
                dfa.scalar_edges(),
                limit == if config.max_product_states == 0 {
                    1
                } else {
                    config.max_product_states as int
                },
                1 <= nodes@.len() <= limit,
                node_id == head,
                head < nodes@.len(),
                nodes@[node_id as int].key == state_id,
                state_id < dfa.states@.len(),
                word == path_word(nodes@, node_id as int),
                state_id == dfa.run(word),
                parents_ok(nodes@),
                nodes@[0].parent is None,
                nodes@[0].key == dfa.start,
                forall|j: int| 0 <= j < nodes@.len() ==> (#[trigger] nodes@[j]).key == dfa.run(path_word(nodes@, j)),
                buckets_ok(buckets@, nodes@.len() as int),
                dstates_indexed(buckets@, nodes@),
                forall|i: int| 0 <= i < head ==> #[trigger] dstate_closed(*dfa, nodes@, i),
                forall|i: int| 0 <= i < head ==> !dfa.states@[(#[trigger] nodes@[i]).key as int].accepting,
                crate::analysis::depth_sorted(nodes@),
                forall|j: int| 0 <= j < nodes@.len() ==> #[trigger] path_word(nodes@, j).len() <= word.len() + 1,
                t <= representatives@.len(),
                forall|m: int|
                    0 <= m < t ==> has_dstate_within(nodes@, dfa.next(state_id, #[trigger] representatives@[m]), word.len() + 1),
            decreases representatives@.len() - t,
        {
            if clock.read_ms() >= config.timeout_ms as u128 {
                return timed_out(BackendStatus::Timeout, nodes.len(), generated_transitions, &started);
            }
            let ch = representatives[t];
            generated_transitions = generated_transitions.saturating_add(1);
            let next = lookup_transition(dfa, state_id, ch);
            let slot = next % BUCKETS;
            if find_dstate(&buckets, &nodes, slot, next) {
                proof {
                    let j = choose|j: int| 0 <= j < nodes@.len() && (#[trigger] nodes@[j]).key == next;
                    assert(path_word(nodes@, j).len() <= word.len() + 1);
                    assert(has_dstate_within(nodes@, next, word.len() + 1));
                }
            } else {
                if nodes.len() >= config.max_product_states {
                    proof {
                        let ws = Seq::new(nodes@.len(), |j: int| path_word(nodes@, j));
                        assert forall|i: int, j: int| 0 <= i < j < ws.len() implies dfa.run(#[trigger] ws[i]) != dfa.run(
                            #[trigger] ws[j],
                        ) by {
                            assert(nodes@[i].key == dfa.run(path_word(nodes@, i)));
                            assert(nodes@[j].key == dfa.run(path_word(nodes@, j)));
                        }
                    }
                    return timed_out(BackendStatus::StateLimit, nodes.len(), generated_transitions, &started);
                }
                proof {
                    assert forall|j: int| 0 <= j < nodes@.len() implies (#[trigger] nodes@[j]).key != next by {
                        if nodes@[j].key == next {
                            assert(in_bucket(buckets@, (nodes@[j].key % BUCKETS) as int, j));
                            let e = choose|e: int|
                                0 <= e < buckets@[slot as int]@.len() && buckets@[slot as int]@[e] == j;
                            assert(dstate_key_is(nodes@, buckets@[slot as int]@[e], next));
                        }
                    }
                }
                let next_id = nodes.len();
                let ghost before = nodes@;
                let ghost buckets_before = buckets@;
                let node = SearchNode { key: next, parent: Some((node_id, ch)) };
                nodes.push(node);
                bucket_add(&mut buckets, slot, next_id);
                proof {
                    assert(nodes@ == before.push(node));
                    lemma_dstates_indexed_push(buckets_before, buckets@, before, node);
                    assert forall|j: int| 0 <= j < nodes@.len() implies match #[trigger] nodes@[j].parent {
                        Some(edge) => edge.0 < j,
                        None => true,
                    } by {
                        if j < before.len() {
                            assert(nodes@[j] == before[j]);
                        }
                    }
                    lemma_path_word_push(before, node, node_id as int);
                    assert(path_word(nodes@, next_id as int) == path_word(before, node_id as int).push(ch));
                    dfa.lemma_run_push(word, ch);
                    assert forall|j: int| 0 <= j < nodes@.len() implies (#[trigger] nodes@[j]).key == dfa.run(path_word(nodes@, j)) by {
                        if j < before.len() {
                            lemma_path_word_push(before, node, j);
                            assert(nodes@[j] == before[j]);
                        }
                    }
                    assert forall|i: int| 0 <= i < head implies #[trigger] dstate_closed(*dfa, nodes@, i) by {
                        lemma_dstate_closed_push(*dfa, before, node, i);
                    }
                    assert forall|i: int| 0 <= i < head implies !dfa.states@[(#[trigger] nodes@[i]).key as int].accepting by {
                        assert(nodes@[i] == before[i]);
                    }
                    assert forall|m: int| 0 <= m < t implies has_dstate_within(
                        nodes@,
                        dfa.next(state_id, #[trigger] representatives@[m]),
                        word.len() + 1,
                    ) by {
                        lemma_has_dstate_push(before, node, dfa.next(state_id, representatives@[m]), word.len() + 1);
                    }
                    assert forall|j: int| 0 <= j < nodes@.len() implies #[trigger] path_word(nodes@, j).len() <= word.len() + 1 by {
                        if j < before.len() {
                            lemma_path_word_push(before, node, j);
                        }
                    }
                    assert forall|i: int, j: int|
                        0 <= i <= j < nodes@.len() implies #[trigger] path_word(nodes@, i).len() <= #[trigger] path_word(
                        nodes@,
                        j,
                    ).len() by {
                        if j < before.len() {
                            lemma_path_word_push(before, node, i);
                            lemma_path_word_push(before, node, j);
                        } else if i < before.len() {
                            lemma_path_word_push(before, node, i);
                        }
                    }
                    assert(nodes@[next_id as int].key == next);
                    assert(has_dstate_within(nodes@, next, word.len() + 1));
                    assert(nodes@[node_id as int] == before[node_id as int]);
                    assert(nodes@[0] == before[0]);
                }
            }
            proof {
                assert(has_dstate_within(nodes@, dfa.next(state_id, ch), word.len() + 1));
            }
            t += 1;
        }
        proof {
            let all = edge_sets(dfa.states@[state_id as int].transitions@);
            assert(source_sets(sets@) == all);
            assert forall|c: char| #[trigger] any_has(edge_sets(dfa.states@[nodes@[node_id as int].key as int].transitions@), c as int) implies has_dstate_within(
                nodes@,
                dfa.next(nodes@[node_id as int].key, c),
                path_word(nodes@, node_id as int).len() + 1,
            ) by {
                let m = choose|m: int| 0 <= m < representatives@.len() && same_membership(all, c as int, #[trigger] representatives@[m] as int);
                let d = representatives@[m];
                lemma_first_target_alike(dfa.states@[state_id as int].transitions@, c as int, d as int);
            }
            assert(dstate_closed(*dfa, nodes@, node_id as int));
        }
        head += 1;
    }
    proof {
        assert(has_dstate(nodes@, dfa.start));
        assert forall|w: Seq<char>| !#[trigger] dfa.accepts(w) by {
            lemma_dstate_reach(*dfa, nodes@, w);
            if has_dstate(nodes@, dfa.run(w)) {
                let j = choose|j: int| 0 <= j < nodes@.len() && (#[trigger] nodes@[j]).key == dfa.run(w);
            }
        }
    }
    timed_out(BackendStatus::Exhausted, nodes.len(), generated_transitions, &started)
}

/// Every node is filed under its state's bucket, and no two nodes hold
/// the same state.
spec fn dstates_indexed(buckets: Seq<Vec<usize>>, nodes: Seq<SearchNode<usize>>) -> bool {
    &&& forall|j: int| 0 <= j < nodes.len() ==> #[trigger] in_bucket(buckets, (nodes[j].key % BUCKETS) as int, j)
    &&& forall|i: int, j: int| 0 <= i < j < nodes.len() ==> (#[trigger] nodes[i]).key != (#[trigger] nodes[j]).key
}

/// Filing a node with a new state keeps the nodes indexed.
proof fn lemma_dstates_indexed_push(
    before: Seq<Vec<usize>>,
    after: Seq<Vec<usize>>,
    nodes: Seq<SearchNode<usize>>,
    node: SearchNode<usize>,
)
    requires
        dstates_indexed(before, nodes),
        nodes.len() <= usize::MAX,
        before.len() == BUCKETS,
        after.len() == before.len(),
        after[(node.key % BUCKETS) as int]@ == before[(node.key % BUCKETS) as int]@.push(nodes.len() as usize),
        forall|b: int| 0 <= b < before.len() && b != (node.key % BUCKETS) as int ==> #[trigger] after[b] == before[b],
        forall|j: int| 0 <= j < nodes.len() ==> (#[trigger] nodes[j]).key != node.key,
    ensures
        dstates_indexed(after, nodes.push(node)),
{
    let all = nodes.push(node);
    let slot = (node.key % BUCKETS) as int;
    assert forall|j: int| 0 <= j < all.len() implies #[trigger] in_bucket(after, (all[j].key % BUCKETS) as int, j) by {
        if j < nodes.len() {
            assert(all[j] == nodes[j]);
            assert(in_bucket(before, (nodes[j].key % BUCKETS) as int, j));
            let b = (nodes[j].key % BUCKETS) as int;
            let e = choose|e: int| 0 <= e < before[b]@.len() && before[b]@[e] == j;
            if b == slot {
                assert(after[b]@[e] == j);
            } else {
                assert(after[b] == before[b]);
            }
        } else {
            assert(all[j] == node);
            assert(after[slot]@[before[slot]@.len() as int] == j);
        }
    }
    assert forall|i: int, j: int| 0 <= i < j < all.len() implies (#[trigger] all[i]).key != (#[trigger] all[j]).key by {
        assert(all[i] == nodes[i]);
        if j < nodes.len() {
            assert(all[j] == nodes[j]);
        }
    }
}

/// Node `id` holds the state `key`.
spec fn dstate_key_is(nodes: Seq<SearchNode<usize>>, id: usize, key: usize) -> bool {
    id < nodes.len() && nodes[id as int].key == key
}

/// Some node recorded in bucket `slot` holds the state `key`.
fn find_dstate(buckets: &Vec<Vec<usize>>, nodes: &Vec<SearchNode<usize>>, slot: usize, key: usize) -> (r: bool)
    requires
        slot < buckets@.len(),
        buckets_ok(buckets@, nodes@.len() as int),
    ensures
        r ==> has_dstate(nodes@, key),
        r == exists|e: int| 0 <= e < buckets@[slot as int]@.len() && #[trigger] dstate_key_is(nodes@, buckets@[slot as int]@[e], key),
{
    let bucket = &buckets[slot];
    let mut e: usize = 0;
    while e < bucket.len()
        invariant
            slot < buckets@.len(),
            *bucket == buckets@[slot as int],
            buckets_ok(buckets@, nodes@.len() as int),
            e <= bucket@.len(),
            forall|f: int| 0 <= f < e ==> !#[trigger] dstate_key_is(nodes@, bucket@[f], key),
        decreases bucket@.len() - e,
    {
        let id = bucket[e];
        proof {
            assert(buckets@[slot as int]@[e as int] < nodes@.len());
        }
        if nodes[id].key == key {
            proof {
                assert(dstate_key_is(nodes@, bucket@[e as int], key));
            }
            return true;
        }
        e += 1;
    }
    false
}


/// Where the first edge of `ts.push(x)` holding `c` leads.
proof fn lemma_first_target_push(ts: Seq<(CharSet, usize)>, x: (CharSet, usize), c: int)
    ensures
        any_has(edge_sets(ts), c) ==> first_target(ts.push(x), c) == first_target(ts, c),
        !any_has(edge_sets(ts), c) ==> first_target(ts.push(x), c) == if x.0.has(c) {
            x.1
        } else {
            DEAD
        },
    decreases ts.len(),
{
    let longer = ts.push(x);
    if ts.len() == 0 {
        assert(longer.drop_first() =~= Seq::<(CharSet, usize)>::empty());
        assert(first_target(longer.drop_first(), c) == DEAD);
        assert(longer[0] == x);
        assert(!any_has(edge_sets(ts), c));
    } else {
        assert(longer[0] == ts[0]);
        assert(longer.drop_first() =~= ts.drop_first().push(x));
        assert(edge_sets(ts)[0] == ts[0].0);
        let rest = ts.drop_first();
        lemma_first_target_push(rest, x, c);
        if any_has(edge_sets(rest), c) {
            let k = choose|k: int| 0 <= k < edge_sets(rest).len() && #[trigger] edge_sets(rest)[k].has(c);
            assert(edge_sets(rest)[k] == edge_sets(ts)[k + 1]);
        }
        if !ts[0].0.has(c) && any_has(edge_sets(ts), c) {
            let k = choose|k: int| 0 <= k < edge_sets(ts).len() && #[trigger] edge_sets(ts)[k].has(c);
            assert(k > 0);
            assert(edge_sets(rest)[k - 1] == edge_sets(ts)[k]);
        }
    }
}

/// Subset `id` is exactly `key`.
spec fn members_are(subsets: Seq<Vec<usize>>, id: usize, key: Seq<usize>) -> bool {
    id < subsets.len() && subsets[id as int]@ == key
}

/// Some discovered subset is exactly `key`.
fn find_members(buckets: &Vec<Vec<usize>>, subsets: &Vec<Vec<usize>>, slot: usize, key: &Vec<usize>) -> (r: Option<usize>)
    requires
        slot < buckets@.len(),
        buckets_ok(buckets@, subsets@.len() as int),
    ensures
        r matches Some(j) ==> j < subsets@.len() && subsets@[j as int]@ == key@,
        r matches Some(j) ==> exists|e: int|
            0 <= e < buckets@[slot as int]@.len() && buckets@[slot as int]@[e] == j && forall|f: int|
                0 <= f < e ==> !#[trigger] members_are(subsets@, buckets@[slot as int]@[f], key@),
        r is None <==> forall|e: int|
            0 <= e < buckets@[slot as int]@.len() ==> !#[trigger] members_are(subsets@, buckets@[slot as int]@[e], key@),
{
    let bucket = &buckets[slot];
    let mut e: usize = 0;
    while e < bucket.len()
        invariant
            slot < buckets@.len(),
            *bucket == buckets@[slot as int],
            buckets_ok(buckets@, subsets@.len() as int),
            e <= bucket@.len(),
            forall|f: int| 0 <= f < e ==> !#[trigger] members_are(subsets@, bucket@[f], key@),
        decreases bucket@.len() - e,
    {
        let id = bucket[e];
        proof {
            assert(buckets@[slot as int]@[e as int] < subsets@.len());
        }
        if same_ids(&subsets[id], key) {
            proof {
                assert(members_are(subsets@, bucket@[e as int], key@));
            }
            return Some(id);
        }
        e += 1;
    }
    None
}

/// A copy of a list of ids.
fn copy_ids(v: &Vec<usize>) -> (r: Vec<usize>)
    ensures
        r@ == v@,
{
    let mut out: Vec<usize> = Vec::new();
    let mut i: usize = 0;
    while i < v.len()
        invariant
            i <= v@.len(),
            out@ == v@.subrange(0, i as int),
        decreases v@.len() - i,
    {
        out.push(v[i]);
        proof {
            assert(out@ =~= v@.subrange(0, i + 1));
        }
        i += 1;
    }
    proof {
        assert(v@.subrange(0, i as int) =~= v@);
    }
    out
}

/// The discovered subsets: sorted state lists of `nfa`, the first empty.
spec fn subsets_ok(nfa: Nfa, subsets: Seq<Vec<usize>>, accepting: Seq<bool>) -> bool {
    &&& subsets.len() >= 1
    &&& accepting.len() == subsets.len()
    &&& subsets[0]@.len() == 0
    &&& forall|i: int|
        0 <= i < subsets.len() ==> {
            &&& sorted_ids(#[trigger] subsets[i]@)
            &&& forall|k: int| 0 <= k < subsets[i]@.len() ==> subsets[i]@[k] < nfa.states@.len()
            &&& accepting[i] == subsets[i]@.to_set().contains(nfa.accept)
        }
}

/// The edges of a finished state step the subsets as `nfa` does.
spec fn state_ok(nfa: Nfa, subsets: Seq<Vec<usize>>, accepting: Seq<bool>, done: Seq<DfaState>, i: int) -> bool {
    &&& done[i].members@ == subsets[i]@
    &&& done[i].accepting == accepting[i]
    &&& forall|k: int| 0 <= k < done[i].transitions@.len() ==> #[trigger] done[i].transitions@[k].1 < subsets.len()
    &&& forall|k: int, v: int|
        0 <= k < done[i].transitions@.len() && #[trigger] done[i].transitions@[k].0.has(v) ==> crate::charset::is_scalar(v)
    &&& forall|c: char|
        subsets[#[trigger] first_target(done[i].transitions@, c as int) as int]@.to_set() == nfa.step_set(subsets[i]@.to_set(), c)
}

/// The edges built so far for the ranges before `p` step the subset `s`.
spec fn trans_ok(nfa: Nfa, subsets: Seq<Vec<usize>>, trans: Seq<(CharSet, usize)>, partition: Seq<(u32, u32, char)>, p: int, s: Set<usize>) -> bool {
    &&& forall|k: int| 0 <= k < trans.len() ==> #[trigger] trans[k].1 < subsets.len()
    &&& forall|c: char, q: int|
        0 <= q < p && (#[trigger] partition[q]).0 <= c as int <= partition[q].1 ==> subsets[#[trigger] first_target(
            trans,
            c as int,
        ) as int]@.to_set() == nfa.step_set(s, c)
}

proof fn lemma_state_ok_push(nfa: Nfa, subsets: Seq<Vec<usize>>, accepting: Seq<bool>, done: Seq<DfaState>, i: int, x: Vec<usize>, a: bool)
    requires
        0 <= i < subsets.len(),
        0 <= i < done.len(),
        accepting.len() == subsets.len(),
        state_ok(nfa, subsets, accepting, done, i),
    ensures
        state_ok(nfa, subsets.push(x), accepting.push(a), done, i),
{
    let s2 = subsets.push(x);
    assert(s2[i] == subsets[i]);
    assert(accepting.push(a)[i] == accepting[i]);
    assert forall|c: char|
        s2[#[trigger] first_target(done[i].transitions@, c as int) as int]@.to_set() == nfa.step_set(s2[i]@.to_set(), c) by {
        let t = first_target(done[i].transitions@, c as int);
        lemma_first_target_bound(done[i].transitions@, c as int, subsets.len() as int);
        assert(s2[t as int] == subsets[t as int]);
    }
}

proof fn lemma_trans_ok_push(nfa: Nfa, subsets: Seq<Vec<usize>>, trans: Seq<(CharSet, usize)>, partition: Seq<(u32, u32, char)>, p: int, s: Set<usize>, x: Vec<usize>)
    requires
        subsets.len() >= 1,
        trans_ok(nfa, subsets, trans, partition, p, s),
    ensures
        trans_ok(nfa, subsets.push(x), trans, partition, p, s),
{
    let s2 = subsets.push(x);
    assert forall|c: char, q: int|
        0 <= q < p && (#[trigger] partition[q]).0 <= c as int <= partition[q].1 implies s2[#[trigger] first_target(
            trans,
            c as int,
        ) as int]@.to_set() == nfa.step_set(s, c) by {
        let t = first_target(trans, c as int);
        lemma_first_target_bound(trans, c as int, subsets.len() as int);
        assert(s2[t as int] == subsets[t as int]);
    }
}

proof fn lemma_subsets_ok_push(nfa: Nfa, subsets: Seq<Vec<usize>>, accepting: Seq<bool>, x: Vec<usize>, a: bool)
    requires
        subsets_ok(nfa, subsets, accepting),
        sorted_ids(x@),
        forall|k: int| 0 <= k < x@.len() ==> #[trigger] x@[k] < nfa.states@.len(),
        a == x@.to_set().contains(nfa.accept),
    ensures
        subsets_ok(nfa, subsets.push(x), accepting.push(a)),
{
    let s2 = subsets.push(x);
    let a2 = accepting.push(a);
    assert forall|i: int| 0 <= i < s2.len() implies {
        &&& sorted_ids(#[trigger] s2[i]@)
        &&& forall|k: int| 0 <= k < s2[i]@.len() ==> s2[i]@[k] < nfa.states@.len()
        &&& a2[i] == s2[i]@.to_set().contains(nfa.accept)
    } by {
        if i < subsets.len() {
            assert(s2[i] == subsets[i]);
            assert(a2[i] == accepting[i]);
        }
    }
}

/// Reading `w` leads the automaton to the subset `nfa` reaches on `w`.
proof fn lemma_determinized_run(nfa: Nfa, subsets: Seq<Vec<usize>>, accepting: Seq<bool>, d: Dfa, w: Seq<char>)
    requires
        d.wf(),
        d.states@.len() == subsets.len(),
        subsets[d.start as int]@.to_set() == nfa.run(Seq::empty()),
        forall|i: int| 0 <= i < subsets.len() ==> #[trigger] state_ok(nfa, subsets, accepting, d.states@, i),
    ensures
        subsets[d.run(w) as int]@.to_set() == nfa.run(w),
    decreases w.len(),
{
    if w.len() > 0 {
        let prefix = w.drop_last();
        let c = w.last();
        lemma_determinized_run(nfa, subsets, accepting, d, prefix);
        d.lemma_run_bound(prefix);
        let q = d.run(prefix);
        assert(state_ok(nfa, subsets, accepting, d.states@, q as int));
        assert(subsets[first_target(d.states@[q as int].transitions@, c as int) as int]@.to_set() == nfa.step_set(
            subsets[q as int]@.to_set(),
            c,
        ));
        crate::analysis::lemma_run_push(nfa, prefix, c);
        assert(prefix.push(c) =~= w);
    }
}

/// The subsets found so far: each but the first (the empty one) is the
/// nonempty subset the automaton reaches on its recorded string, no two are
/// the same, and each is recorded in the bucket of its key.
spec fn discovered_ok(nfa: Nfa, subsets: Seq<Vec<usize>>, buckets: Seq<Vec<usize>>, words: Seq<Seq<char>>) -> bool {
    &&& words.len() == subsets.len()
    &&& forall|i: int| 1 <= i < subsets.len() ==> (#[trigger] subsets[i])@.len() > 0 && subsets[i]@.to_set() == nfa.run(words[i])
    &&& forall|i: int, j: int| 1 <= i < j < subsets.len() ==> (#[trigger] subsets[i])@ != (#[trigger] subsets[j])@
    &&& forall|i: int| 1 <= i < subsets.len() ==> #[trigger] in_bucket(buckets, subset_slot_of(subsets[i]@), i)
}

/// Two sorted id lists with the same members are the same list.
pub(crate) proof fn lemma_sorted_set_eq(a: Seq<usize>, b: Seq<usize>)
    requires
        sorted_ids(a),
        sorted_ids(b),
        a.to_set() == b.to_set(),
    ensures
        a == b,
    decreases a.len(),
{
    if a.len() == 0 {
        if b.len() > 0 {
            assert(b.to_set().contains(b[0]));
        }
        assert(a =~= b);
    } else if b.len() == 0 {
        assert(a.to_set().contains(a[0]));
    } else {
        assert(b.to_set().contains(b[0]));
        assert(a.to_set().contains(a[0]));
        let i = choose|i: int| 0 <= i < a.len() && a[i] == b[0];
        let j = choose|j: int| 0 <= j < b.len() && b[j] == a[0];
        if i > 0 {
            assert(a[0] < a[i]);
        }
        if j > 0 {
            assert(b[0] < b[j]);
        }
        assert(a[0] == b[0]);
        let a1 = a.drop_first();
        let b1 = b.drop_first();
        assert forall|x: usize| a1.to_set().contains(x) implies b1.to_set().contains(x) by {
            assert(a1.contains(x));
            let k = choose|k: int| 0 <= k < a1.len() && a1[k] == x;
            assert(a[k + 1] == x);
            assert(a[0] < a[k + 1]);
            assert(a.contains(x));
            assert(b.to_set().contains(x));
            let m = choose|m: int| 0 <= m < b.len() && b[m] == x;
            assert(m != 0);
            assert(b1[m - 1] == x);
        }
        assert forall|x: usize| b1.to_set().contains(x) implies a1.to_set().contains(x) by {
            assert(b1.contains(x));
            let k = choose|k: int| 0 <= k < b1.len() && b1[k] == x;
            assert(b[k + 1] == x);
            assert(b[0] < b[k + 1]);
            assert(b.contains(x));
            assert(a.to_set().contains(x));
            let m = choose|m: int| 0 <= m < a.len() && a[m] == x;
            assert(m != 0);
            assert(a1[m - 1] == x);
        }
        assert(a1.to_set() =~= b1.to_set());
        lemma_sorted_set_eq(a1, b1);
        assert(a =~= seq![a[0]] + a1);
        assert(b =~= seq![b[0]] + b1);
    }
}

/// Full subset construction: every reachable subset of `nfa` becomes a
/// state (the empty one being [`DEAD`]), with one edge per range of the
/// alphabet on which the subset's outgoing classes agree. Stops with
/// `StateLimit` when a new state would pass `max_states`, and with
/// `Timeout` once `deadline` has passed since `started`.
pub fn determinize(nfa: &Nfa, max_states: usize, started: Instant, deadline: Duration) -> (r: Result<Dfa, BackendStatus>)
    requires
        nfa.wf(),
        nfa.scalar_edges(),
    ensures
        match r {
            Ok(d) => d.wf() && d.scalar_edges() && forall|w: Seq<char>| #[trigger] d.accepts(w) == nfa.accepts(w),
            Err(status) => status == BackendStatus::StateLimit || status == BackendStatus::Timeout,
        },
        r matches Err(BackendStatus::StateLimit) ==> exists|ws: Seq<Seq<char>>|
            ws.len() >= max_states && forall|i: int, j: int|
                0 <= i < j < ws.len() ==> nfa.run(#[trigger] ws[i]) != nfa.run(#[trigger] ws[j]),
{
    determinize_within(nfa, max_states, duration_millis(&deadline), &WallClock::since(started))
}

/// [`determinize`] against `clock`: `Timeout` comes only after a reading
/// of at least `deadline_ms`, and a zero deadline stops it before the
/// first state that any string reaches is expanded.
#[verifier::spinoff_prover]
#[verifier::rlimit(60)]
pub fn determinize_within<K: Clock>(nfa: &Nfa, max_states: usize, deadline_ms: u128, clock: &K) -> (r: Result<
    Dfa,
    BackendStatus,
>)
    requires
        nfa.wf(),
        nfa.scalar_edges(),
    ensures
        match r {
            Ok(d) => d.wf() && d.scalar_edges() && forall|w: Seq<char>| #[trigger] d.accepts(w) == nfa.accepts(w),
            Err(status) => status == BackendStatus::StateLimit || status == BackendStatus::Timeout,
        },
        r matches Err(BackendStatus::StateLimit) ==> exists|ws: Seq<Seq<char>>|
            ws.len() >= max_states && forall|i: int, j: int|
                0 <= i < j < ws.len() ==> nfa.run(#[trigger] ws[i]) != nfa.run(#[trigger] ws[j]),
        r matches Err(BackendStatus::Timeout) ==> exists|t: u128| #[trigger] clock.may_read(t) && t >= deadline_ms,
        deadline_ms == 0 && nfa.run(Seq::empty()) != Set::<usize>::empty() ==> r == Err::<Dfa, BackendStatus>(
            BackendStatus::Timeout,
        ),
{
    let ghost mut words: Seq<Seq<char>> = seq![Seq::empty()];
    let mut subsets: Vec<Vec<usize>> = Vec::new();
    let mut accepting: Vec<bool> = Vec::new();
    let mut done: Vec<DfaState> = Vec::new();
    let mut buckets = empty_buckets();
    subsets.push(Vec::new());
    accepting.push(false);
    done.push(DfaState { accepting: false, transitions: Vec::new(), members: Vec::new() });
    let start_subset = nfa.start_subset();
    let start_id = if start_subset.len() == 0 {
        proof {
            assert(start_subset@.to_set() =~= Set::<usize>::empty());
            assert(subsets@[0]@.to_set() =~= Set::<usize>::empty());
        }
        DEAD
    } else {
        let slot = subset_slot(&start_subset);
        let acc = nfa.is_accepting(&start_subset);
        subsets.push(start_subset);
        accepting.push(acc);
        bucket_add(&mut buckets, slot, 1);
        proof {
            words = words.push(Seq::empty());
            assert(buckets@[slot as int]@[buckets@[slot as int]@.len() - 1] == 1);
            assert(in_bucket(buckets@, subset_slot_of(subsets@[1]@), 1));
        }
        1
    };
    proof {
        assert(discovered_ok(*nfa, subsets@, buckets@, words));
    }
    proof {
        assert(subsets@[0]@.to_set() =~= Set::<usize>::empty());
        assert forall|c: char| subsets@[#[trigger] first_target(done@[0].transitions@, c as int) as int]@.to_set() == nfa.step_set(
            subsets@[0]@.to_set(),
            c,
        ) by {
            nfa.lemma_step_from_empty(c);
        }
        assert(state_ok(*nfa, subsets@, accepting@, done@, 0));
    }
    let mut head: usize = 1;
    while head < subsets.len()
        invariant
            nfa.wf(),
            nfa.scalar_edges(),
            subsets_ok(*nfa, subsets@, accepting@),
            start_id < subsets@.len(),
            subsets@[start_id as int]@.to_set() == nfa.run(Seq::empty()),
            1 <= head <= subsets@.len(),
            done@.len() == head,
            done@[0].transitions@.len() == 0,
            !done@[0].accepting,
            buckets_ok(buckets@, subsets@.len() as int),
            discovered_ok(*nfa, subsets@, buckets@, words),
            forall|i: int| 0 <= i < head ==> #[trigger] state_ok(*nfa, subsets@, accepting@, done@, i),
            deadline_ms == 0 ==> head == 1,
        decreases usize::MAX - head,
    {
        if clock.read_ms() >= deadline_ms {
            return Err(BackendStatus::Timeout);
        }
        let subset = copy_ids(&subsets[head]);
        let ghost s_set = subset@.to_set();
        proof {
            assert(sorted_ids(subsets@[head as int]@));
        }
        let outgoing = nfa.outgoing_sets(&subset);
        let partition = alphabet_partition(&outgoing);
        proof {
            lemma_subset_sets_scalar(*nfa, subset@);
            assert(source_sets(outgoing@) =~= crate::nfa::deref_sets(outgoing@));
        }
        let ghost all = subset_sets(nfa.states@, subset@);
        let mut trans: Vec<(CharSet, usize)> = Vec::new();
        let mut p: usize = 0;
        while p < partition.len()
            invariant
                nfa.wf(),
                nfa.scalar_edges(),
                subsets_ok(*nfa, subsets@, accepting@),
                start_id < subsets@.len(),
                subsets@[start_id as int]@.to_set() == nfa.run(Seq::empty()),
                1 <= head < subsets@.len(),
                done@.len() == head,
                done@[0].transitions@.len() == 0,
                !done@[0].accepting,
                buckets_ok(buckets@, subsets@.len() as int),
                discovered_ok(*nfa, subsets@, buckets@, words),
                s_set == nfa.run(words[head as int]),
                forall|i: int| 0 <= i < head ==> #[trigger] state_ok(*nfa, subsets@, accepting@, done@, i),
                subset@ == subsets@[head as int]@,
                s_set == subset@.to_set(),
                all == subset_sets(nfa.states@, subset@),
                all == source_sets(outgoing@),
                sets_scalar(all),
                forall|i: int| 0 <= i < subset@.len() ==> #[trigger] subset@[i] < nfa.states@.len(),
                forall|i: int|
                    0 <= i < partition@.len() ==> {
                        let (lo, hi, rep) = #[trigger] partition@[i];
                        &&& rep as int == lo as int
                        &&& lo <= hi
                        &&& any_has(all, lo as int)
                        &&& uniform_range(all, lo as int, hi as int)
                    },
                forall|i: int, j: int| 0 <= i < j < partition@.len() ==> (#[trigger] partition@[i]).1 < (#[trigger] partition@[j]).0,
                forall|v: int| #[trigger] any_has(all, v) ==> exists|i: int| 0 <= i < partition@.len() && (#[trigger] partition@[i]).0 <= v <= partition@[i].1,
                p <= partition@.len(),
                trans_ok(*nfa, subsets@, trans@, partition@, p as int, s_set),
                forall|k: int, v: int|
                    0 <= k < trans@.len() && #[trigger] trans@[k].0.has(v) ==> crate::charset::is_scalar(v) && exists|q: int|
                        0 <= q < p && (#[trigger] partition@[q]).0 <= v <= partition@[q].1,
            decreases partition@.len() - p,
        {
            if clock.read_ms() >= deadline_ms {
                return Err(BackendStatus::Timeout);
            }
            let (lo, hi, rep) = partition[p];
            let next_subset = nfa.step(&subset, rep);
            let ghost nset = nfa.step_set(s_set, rep);
            let target = if next_subset.len() == 0 {
                proof {
                    assert(next_subset@.to_set() =~= Set::<usize>::empty());
                    assert(subsets@[0]@.to_set() =~= Set::<usize>::empty());
                }
                DEAD
            } else {
                let slot = subset_slot(&next_subset);
                match find_members(&buckets, &subsets, slot, &next_subset) {
                    Some(idx) => idx,
                    None => {
                        let ghost nw = words[head as int].push(rep);
                        proof {
                            assert(nw.drop_last() =~= words[head as int]);
                            assert(nfa.run(nw) == nset);
                            assert forall|i: int| 1 <= i < subsets@.len() implies subsets@[i]@ != next_subset@ by {
                                if subsets@[i]@ == next_subset@ {
                                    assert(in_bucket(buckets@, subset_slot_of(subsets@[i]@), i));
                                    let e = choose|e: int| 0 <= e < buckets@[slot as int]@.len() && buckets@[slot as int]@[e] == i;
                                    assert(members_are(subsets@, buckets@[slot as int]@[e], next_subset@));
                                }
                            }
                        }
                        if subsets.len() >= max_states {
                            proof {
                                let ws = words.subrange(1, words.len() as int).push(nw);
                                assert forall|i: int, j: int| 0 <= i < j < ws.len() implies nfa.run(#[trigger] ws[i]) != nfa.run(
                                    #[trigger] ws[j],
                                ) by {
                                    assert(ws[i] == words[i + 1]);
                                    assert(subsets@[i + 1]@.to_set() == nfa.run(ws[i]));
                                    if j < ws.len() - 1 {
                                        assert(ws[j] == words[j + 1]);
                                        assert(subsets@[j + 1]@.to_set() == nfa.run(ws[j]));
                                        assert(subsets@[i + 1]@ != subsets@[j + 1]@);
                                        if nfa.run(ws[i]) == nfa.run(ws[j]) {
                                            lemma_sorted_set_eq(subsets@[i + 1]@, subsets@[j + 1]@);
                                        }
                                    } else {
                                        assert(ws[j] == nw);
                                        if nfa.run(ws[i]) == nfa.run(ws[j]) {
                                            lemma_sorted_set_eq(subsets@[i + 1]@, next_subset@);
                                        }
                                    }
                                }
                                assert(ws.len() >= max_states);
                            }
                            return Err(BackendStatus::StateLimit);
                        }
                        let idx = subsets.len();
                        let acc = nfa.is_accepting(&next_subset);
                        let ghost before_subsets = subsets@;
                        let ghost before_acc = accepting@;
                        let ghost ns = next_subset;
                        proof {
                            assert forall|i: int| 0 <= i < head implies #[trigger] state_ok(
                                *nfa,
                                before_subsets.push(ns),
                                before_acc.push(acc),
                                done@,
                                i,
                            ) by {
                                lemma_state_ok_push(*nfa, before_subsets, before_acc, done@, i, ns, acc);
                            }
                            lemma_trans_ok_push(*nfa, before_subsets, trans@, partition@, p as int, s_set, ns);
                            lemma_subsets_ok_push(*nfa, before_subsets, before_acc, ns, acc);
                        }
                        let ghost before_buckets = buckets@;
                        subsets.push(next_subset);
                        accepting.push(acc);
                        bucket_add(&mut buckets, slot, idx);
                        proof {
                            let ghost before_words = words;
                            words = words.push(nw);
                            assert(subsets@ == before_subsets.push(ns));
                            assert forall|i: int| 1 <= i < subsets@.len() implies (#[trigger] subsets@[i])@.len() > 0
                                && subsets@[i]@.to_set() == nfa.run(words[i]) by {
                                if i < before_subsets.len() {
                                    assert(subsets@[i] == before_subsets[i]);
                                    assert(words[i] == before_words[i]);
                                }
                            }
                            assert forall|i: int, j: int| 1 <= i < j < subsets@.len() implies (#[trigger] subsets@[i])@ != (
                            #[trigger] subsets@[j])@ by {
                                assert(subsets@[i] == before_subsets[i]);
                                if j < before_subsets.len() {
                                    assert(subsets@[j] == before_subsets[j]);
                                }
                            }
                            assert forall|i: int| 1 <= i < subsets@.len() implies #[trigger] in_bucket(
                                buckets@,
                                subset_slot_of(subsets@[i]@),
                                i,
                            ) by {
                                let b = subset_slot_of(subsets@[i]@);
                                if i < before_subsets.len() {
                                    assert(subsets@[i] == before_subsets[i]);
                                    assert(in_bucket(before_buckets, b, i));
                                    let e = choose|e: int| 0 <= e < before_buckets[b]@.len() && before_buckets[b]@[e] == i;
                                    if b == slot {
                                        assert(buckets@[b]@[e] == i);
                                    } else {
                                        assert(buckets@[b] == before_buckets[b]);
                                    }
                                } else {
                                    assert(b == slot);
                                    assert(buckets@[b]@[before_buckets[b]@.len() as int] == i);
                                }
                            }
                            assert(discovered_ok(*nfa, subsets@, buckets@, words));
                        }
                        proof {
                            assert(subsets@[head as int] == before_subsets[head as int]);
                            assert(subsets@[start_id as int] == before_subsets[start_id as int]);
                            assert(subsets@[0] == before_subsets[0]);
                            assert(subsets@[idx as int] == ns);
                            assert(subsets@ == before_subsets.push(ns));
                        }
                        idx
                    },
                }
            };
            proof {
                assert(subsets@[target as int]@.to_set() == nset);
                assert(uniform_range(all, lo as int, hi as int));
                assert forall|c: char| lo as int <= c as int <= hi as int implies nfa.step_set(s_set, c) == nset by {
                    assert(same_membership(all, c as int, lo as int));
                    lemma_moves_alike(*nfa, subset@, c, rep);
                }
            }
            if target != DEAD {
                let mut raw: Vec<Interval> = Vec::new();
                raw.push(Interval::new(lo, hi));
                proof {
                    assert(crate::charset::ivs_each_wf(raw@)) by {
                        assert(same_membership(all, hi as int, lo as int));
                        let kk = choose|kk: int| 0 <= kk < all.len() && #[trigger] all[kk].has(lo as int);
                        assert(all[kk].has(hi as int));
                        assert(raw@[0].wf());
                    }
                }
                let set = CharSet::from_u32_intervals(raw);
                let ghost before = trans@;
                let entry = (set, target);
                trans.push(entry);
                proof {
                    assert(trans@ == before.push(entry));
                    assert forall|v: int| #[trigger] set.has(v) <==> lo as int <= v <= hi as int by {
                        if lo as int <= v <= hi as int {
                            assert(raw@[0].has(v));
                        }
                    }
                    assert forall|k: int| 0 <= k < trans@.len() implies #[trigger] trans@[k].1 < subsets@.len() by {
                        if k < before.len() {
                            assert(trans@[k] == before[k]);
                        }
                    }
                    assert forall|k: int, v: int|
                        0 <= k < trans@.len() && #[trigger] trans@[k].0.has(v) implies crate::charset::is_scalar(v) && exists|q: int|
                            0 <= q < p + 1 && (#[trigger] partition@[q]).0 <= v <= partition@[q].1 by {
                        if k < before.len() {
                            assert(trans@[k] == before[k]);
                        } else {
                            assert(lo as int <= v <= hi as int);
                            assert(same_membership(all, v, lo as int));
                            let kk = choose|kk: int| 0 <= kk < all.len() && #[trigger] all[kk].has(lo as int);
                            assert(all[kk].has(v));
                        }
                    }
                    assert forall|c: char, q: int|
                        0 <= q < p + 1 && (#[trigger] partition@[q]).0 <= c as int <= partition@[q].1 implies subsets@[#[trigger] first_target(
                            trans@,
                            c as int,
                        ) as int]@.to_set() == nfa.step_set(s_set, c) by {
                        lemma_first_target_push(before, entry, c as int);
                        if q < p {
                            assert(partition@[q].1 < partition@[p as int].0);
                            if !any_has(edge_sets(before), c as int) {
                                lemma_first_target_none(before, c as int);
                            }
                        } else {
                            if any_has(edge_sets(before), c as int) {
                                let k = choose|k: int| 0 <= k < edge_sets(before).len() && #[trigger] edge_sets(before)[k].has(c as int);
                                assert(edge_sets(before)[k] == before[k].0);
                                let qq = choose|qq: int| 0 <= qq < p && (#[trigger] partition@[qq]).0 <= c as int <= partition@[qq].1;
                                assert(partition@[qq].1 < partition@[p as int].0);
                            }
                        }
                    }
                    assert(trans_ok(*nfa, subsets@, trans@, partition@, p + 1, s_set));
                }
            } else {
                proof {
                    assert forall|c: char, q: int|
                        0 <= q < p + 1 && (#[trigger] partition@[q]).0 <= c as int <= partition@[q].1 implies subsets@[#[trigger] first_target(
                            trans@,
                            c as int,
                        ) as int]@.to_set() == nfa.step_set(s_set, c) by {
                        if q == p {
                            if any_has(edge_sets(trans@), c as int) {
                                let k = choose|k: int| 0 <= k < edge_sets(trans@).len() && #[trigger] edge_sets(trans@)[k].has(c as int);
                                assert(edge_sets(trans@)[k] == trans@[k].0);
                                let qq = choose|qq: int| 0 <= qq < p && (#[trigger] partition@[qq]).0 <= c as int <= partition@[qq].1;
                                assert(partition@[qq].1 < partition@[p as int].0);
                            }
                            lemma_first_target_none(trans@, c as int);
                        }
                    }
                    assert forall|k: int, v: int|
                        0 <= k < trans@.len() && #[trigger] trans@[k].0.has(v) implies crate::charset::is_scalar(v) && exists|qq: int|
                            0 <= qq < p + 1 && (#[trigger] partition@[qq]).0 <= v <= partition@[qq].1 by {
                        let qq = choose|qq: int| 0 <= qq < p && (#[trigger] partition@[qq]).0 <= v <= partition@[qq].1;
                    }
                    assert(trans_ok(*nfa, subsets@, trans@, partition@, p + 1, s_set));
                }
            }
            p += 1;
        }
        let ghost before_done = done@;
        let state = DfaState { accepting: accepting[head], transitions: trans, members: subset };
        done.push(state);
        proof {
            assert(done@ == before_done.push(state));
            assert forall|i: int| 0 <= i < head + 1 implies #[trigger] state_ok(*nfa, subsets@, accepting@, done@, i) by {
                if i < head {
                    assert(done@[i] == before_done[i]);
                    assert(state_ok(*nfa, subsets@, accepting@, before_done, i));
                } else {
                    assert forall|c: char|
                        subsets@[#[trigger] first_target(done@[i].transitions@, c as int) as int]@.to_set() == nfa.step_set(
                            subsets@[i]@.to_set(),
                            c,
                        ) by {
                        if exists|q: int| 0 <= q < partition@.len() && (#[trigger] partition@[q]).0 <= c as int <= partition@[q].1 {
                            let q = choose|q: int| 0 <= q < partition@.len() && (#[trigger] partition@[q]).0 <= c as int <= partition@[q].1;
                        } else {
                            assert(!any_has(all, c as int));
                            lemma_moves_none(*nfa, subset@, c);
                            if any_has(edge_sets(trans@), c as int) {
                                let k = choose|k: int| 0 <= k < edge_sets(trans@).len() && #[trigger] edge_sets(trans@)[k].has(c as int);
                                assert(edge_sets(trans@)[k] == trans@[k].0);
                            }
                            lemma_first_target_none(trans@, c as int);
                            assert(subsets@[0]@.to_set() =~= Set::<usize>::empty());
                        }
                    }
                }
            }
            assert(done@[0] == before_done[0]);
        }
        head += 1;
    }
    let dfa = Dfa { states: done, start: start_id };
    proof {
        if deadline_ms == 0 {
            assert(subsets@[0]@.to_set() =~= Set::<usize>::empty());
        }
        assert forall|q: int, k: int|
            0 <= q < dfa.states@.len() && 0 <= k < dfa.states@[q].transitions@.len() implies #[trigger] dfa.states@[q].transitions@[k].1
                < dfa.states@.len() by {
            assert(state_ok(*nfa, subsets@, accepting@, done@, q));
        }
        assert forall|q: int, k: int, v: int|
            0 <= q < dfa.states@.len() && 0 <= k < dfa.states@[q].transitions@.len() && #[trigger] dfa.states@[q].transitions@[k].0.has(
                v,
            ) implies crate::charset::is_scalar(v) by {
            assert(state_ok(*nfa, subsets@, accepting@, done@, q));
        }
        assert forall|w: Seq<char>| #[trigger] dfa.accepts(w) == nfa.accepts(w) by {
            lemma_determinized_run(*nfa, subsets@, accepting@, dfa, w);
            dfa.lemma_run_bound(w);
            let q = dfa.run(w);
            assert(state_ok(*nfa, subsets@, accepting@, done@, q as int));
            assert(sorted_ids(subsets@[q as int]@));
        }
    }
    Ok(dfa)
}


/// `x` is the class of some edge.
pub open spec fn is_dfa_edge_set(states: Seq<DfaState>, x: CharSet) -> bool {
    exists|q: int, k: int| 0 <= q < states.len() && 0 <= k < states[q].transitions@.len() && #[trigger] states[q].transitions@[k].0 == x
}

/// The edge classes of every state, state by state.
pub open spec fn all_state_sets(states: Seq<DfaState>) -> Seq<CharSet>
    decreases states.len(),
{
    if states.len() == 0 {
        Seq::empty()
    } else {
        all_state_sets(states.drop_last()) + edge_sets(states.last().transitions@)
    }
}

proof fn lemma_all_state_sets(states: Seq<DfaState>)
    ensures
        forall|q: int, k: int|
            0 <= q < states.len() && 0 <= k < states[q].transitions@.len() ==> all_state_sets(states).contains(
                #[trigger] states[q].transitions@[k].0,
            ),
        forall|i: int| 0 <= i < all_state_sets(states).len() ==> is_dfa_edge_set(states, #[trigger] all_state_sets(states)[i]),
    decreases states.len(),
{
    if states.len() > 0 {
        let front = states.drop_last();
        lemma_all_state_sets(front);
        let head = all_state_sets(front);
        let tail = edge_sets(states.last().transitions@);
        let all = all_state_sets(states);
        assert(all == head + tail);
        assert forall|q: int, k: int|
            0 <= q < states.len() && 0 <= k < states[q].transitions@.len() implies all.contains(
                #[trigger] states[q].transitions@[k].0,
            ) by {
            let x = states[q].transitions@[k].0;
            if q < front.len() {
                assert(front[q] == states[q]);
                assert(head.contains(front[q].transitions@[k].0));
                let i = choose|i: int| 0 <= i < head.len() && head[i] == x;
                assert(all[i] == x);
            } else {
                assert(tail[k] == x);
                assert(all[head.len() + k] == x);
            }
        }
        assert forall|i: int| 0 <= i < all.len() implies is_dfa_edge_set(states, #[trigger] all[i]) by {
            if i < head.len() {
                assert(all[i] == head[i]);
                assert(is_dfa_edge_set(front, head[i]));
                let (q, k) = choose|q: int, k: int|
                    0 <= q < front.len() && 0 <= k < front[q].transitions@.len() && #[trigger] front[q].transitions@[k].0 == head[i];
                assert(front[q] == states[q]);
                assert(states[q].transitions@[k].0 == all[i]);
                assert(0 <= q < states.len() && 0 <= k < states[q].transitions@.len());
            } else {
                let k = i - head.len();
                let q = states.len() - 1;
                assert(all[i] == tail[k]);
                assert(tail[k] == states.last().transitions@[k].0);
                assert(states[q] == states.last());
                assert(tail.len() == states.last().transitions@.len());
                assert(0 <= q < states.len() && 0 <= k < states[q].transitions@.len());
                assert(states[q].transitions@[k].0 == all[i]);
            }
        }
    }
}

/// The edge classes of every state of `dfa`, as references.
fn all_edge_sets<'a>(dfa: &'a Dfa) -> (r: Vec<&'a CharSet>)
    ensures
        source_sets(r@) == all_state_sets(dfa.states@),
{
    let mut out: Vec<&'a CharSet> = Vec::new();
    let mut q: usize = 0;
    while q < dfa.states.len()
        invariant
            q <= dfa.states@.len(),
            source_sets(out@) == all_state_sets(dfa.states@.subrange(0, q as int)),
        decreases dfa.states@.len() - q,
    {
        let mut more = state_sets(dfa, q);
        let ghost before = out@;
        let ghost extra = more@;
        out.append(&mut more);
        proof {
            assert(out@ == before + extra);
            assert(source_sets(out@) =~= source_sets(before) + source_sets(extra));
            let next = dfa.states@.subrange(0, q + 1);
            assert(next.drop_last() =~= dfa.states@.subrange(0, q as int));
            assert(next.last() == dfa.states@[q as int]);
        }
        q += 1;
    }
    proof {
        assert(dfa.states@.subrange(0, q as int) =~= dfa.states@);
    }
    out
}

/// The classes, under `part`, of the states each representative leads to.
pub open spec fn signature(d: Dfa, part: Seq<usize>, reps: Seq<char>, x: usize) -> Seq<usize> {
    Seq::new(reps.len(), |r: int| part[d.next(x, reps[r]) as int])
}

/// `part` is stable: states of one class accept alike and step into the
/// same classes on every representative.
pub open spec fn stable(d: Dfa, part: Seq<usize>, reps: Seq<char>) -> bool {
    forall|x: usize, y: usize|
        x < d.states@.len() && y < d.states@.len() && #[trigger] part[x as int] == #[trigger] part[y as int] ==> d.states@[x as int].accepting
            == d.states@[y as int].accepting && signature(d, part, reps, x) == signature(d, part, reps, y)
}

/// A state of class `j`.
spec fn class_rep(q: Seq<usize>, j: int) -> int {
    choose|x: int| 0 <= x < q.len() && q[x] == j
}

/// A partition `q` that refines `p` has at least as many classes, and
/// with as many classes it puts states together exactly as `p` does.
proof fn lemma_refinement_classes(p: Seq<usize>, q: Seq<usize>, cp: nat, cq: nat)
    requires
        p.len() == q.len(),
        forall|x: int| 0 <= x < p.len() ==> #[trigger] p[x] < cp,
        forall|j: int| 0 <= j < cp ==> #[trigger] has_member(p, j),
        forall|x: int| 0 <= x < q.len() ==> #[trigger] q[x] < cq,
        forall|j: int| 0 <= j < cq ==> #[trigger] has_member(q, j),
        forall|x: int, y: int| 0 <= x < q.len() && 0 <= y < q.len() && #[trigger] q[x] == #[trigger] q[y] ==> p[x] == p[y],
    ensures
        cp <= cq,
        cp == cq ==> forall|x: int, y: int|
            0 <= x < p.len() && 0 <= y < p.len() && #[trigger] p[x] == #[trigger] p[y] ==> q[x] == q[y],
{
    let f = |j: int| p[class_rep(q, j)] as int;
    let a = vstd::set_lib::set_int_range(0, cq as int);
    let b = vstd::set_lib::set_int_range(0, cp as int);
    lemma_class_image(p, q, cp, cq);
    vstd::set_lib::lemma_int_range(0, cq as int);
    vstd::set_lib::lemma_int_range(0, cp as int);
    vstd::set_lib::lemma_map_size_bound(a, b, f);
    if cp == cq {
        assert forall|x: int, y: int| 0 <= x < p.len() && 0 <= y < p.len() && #[trigger] p[x] == #[trigger] p[y] implies q[x] == q[y] by {
            if q[x] != q[y] {
                lemma_class_image_without(p, q, cp, cq, x, y);
                vstd::set_lib::lemma_map_size_bound(a.remove(q[y] as int), b, f);
                assert(a.remove(q[y] as int).len() == a.len() - 1);
            }
        }
    }
}

/// A state's class in `p` is that of the representative of its class in
/// `q`, and the classes of `q` map onto those of `p`.
proof fn lemma_class_image(p: Seq<usize>, q: Seq<usize>, cp: nat, cq: nat)
    requires
        p.len() == q.len(),
        forall|x: int| 0 <= x < p.len() ==> #[trigger] p[x] < cp,
        forall|j: int| 0 <= j < cp ==> #[trigger] has_member(p, j),
        forall|x: int| 0 <= x < q.len() ==> #[trigger] q[x] < cq,
        forall|j: int| 0 <= j < cq ==> #[trigger] has_member(q, j),
        forall|x: int, y: int| 0 <= x < q.len() && 0 <= y < q.len() && #[trigger] q[x] == #[trigger] q[y] ==> p[x] == p[y],
    ensures
        forall|x: int| 0 <= x < q.len() ==> p[class_rep(q, #[trigger] q[x] as int)] == p[x],
        vstd::set_lib::set_int_range(0, cq as int).map(|j: int| p[class_rep(q, j)] as int) == vstd::set_lib::set_int_range(
            0,
            cp as int,
        ),
{
    let f = |j: int| p[class_rep(q, j)] as int;
    let a = vstd::set_lib::set_int_range(0, cq as int);
    let b = vstd::set_lib::set_int_range(0, cp as int);
    assert forall|x: int| 0 <= x < q.len() implies p[class_rep(q, #[trigger] q[x] as int)] == p[x] by {
        assert(has_member(q, q[x] as int));
        let r = class_rep(q, q[x] as int);
        assert(q[r] == q[x]);
    }
    assert forall|i: int| b.contains(i) implies a.map(f).contains(i) by {
        assert(has_member(p, i));
        let x = choose|x: int| 0 <= x < p.len() && p[x] == i;
        assert(p[class_rep(q, q[x] as int)] == p[x]);
        assert(a.contains(q[x] as int) && f(q[x] as int) == i);
    }
    assert forall|i: int| a.map(f).contains(i) implies b.contains(i) by {
        let j = choose|j: int| a.contains(j) && f(j) == i;
        assert(has_member(q, j));
        let r = class_rep(q, j);
        assert(p[r] < cp);
    }
    assert(a.map(f) =~= b);
}

/// Two states apart in `q` but together in `p` leave the image of the
/// classes of `q` whole when one of their classes is dropped.
proof fn lemma_class_image_without(p: Seq<usize>, q: Seq<usize>, cp: nat, cq: nat, x: int, y: int)
    requires
        p.len() == q.len(),
        0 <= x < p.len(),
        0 <= y < p.len(),
        p[x] == p[y],
        q[x] != q[y],
        forall|x: int| 0 <= x < q.len() ==> #[trigger] q[x] < cq,
        forall|x: int| 0 <= x < q.len() ==> p[class_rep(q, #[trigger] q[x] as int)] == p[x],
        vstd::set_lib::set_int_range(0, cq as int).map(|j: int| p[class_rep(q, j)] as int) == vstd::set_lib::set_int_range(
            0,
            cp as int,
        ),
    ensures
        vstd::set_lib::set_int_range(0, cq as int).remove(q[y] as int).map(|j: int| p[class_rep(q, j)] as int)
            == vstd::set_lib::set_int_range(0, cp as int),
{
    let f = |j: int| p[class_rep(q, j)] as int;
    let a = vstd::set_lib::set_int_range(0, cq as int);
    let b = vstd::set_lib::set_int_range(0, cp as int);
    let a0 = a.remove(q[y] as int);
    assert(f(q[x] as int) == p[x]);
    assert(f(q[y] as int) == p[y]);
    assert forall|i: int| b.contains(i) implies a0.map(f).contains(i) by {
        assert(a.map(f).contains(i));
        let j = choose|j: int| a.contains(j) && f(j) == i;
        if j == q[y] as int {
            assert(a0.contains(q[x] as int) && f(q[x] as int) == i);
        } else {
            assert(a0.contains(j));
        }
    }
    assert forall|i: int| a0.map(f).contains(i) implies b.contains(i) by {
        let j = choose|j: int| a0.contains(j) && f(j) == i;
        assert(a.map(f).contains(f(j)));
    }
    assert(a0.map(f) =~= b);
}

/// Some state is in class `j`.
pub open spec fn has_member(part: Seq<usize>, j: int) -> bool {
    exists|x: int| 0 <= x < part.len() && #[trigger] part[x] == j
}

/// Recorded key `id` is `(class, sig)`.
spec fn key_is(keys: Seq<(usize, Vec<usize>)>, id: usize, class: usize, sig: Seq<usize>) -> bool {
    id < keys.len() && keys[id as int].0 == class && keys[id as int].1@ == sig
}

/// Some recorded key equals `key`.
fn find_key(buckets: &Vec<Vec<usize>>, keys: &Vec<(usize, Vec<usize>)>, slot: usize, key: &(usize, Vec<usize>)) -> (r: Option<usize>)
    requires
        slot < buckets@.len(),
        buckets_ok(buckets@, keys@.len() as int),
    ensures
        r matches Some(j) ==> j < keys@.len() && keys@[j as int].0 == key.0 && keys@[j as int].1@ == key.1@,
        r matches Some(j) ==> exists|e: int|
            0 <= e < buckets@[slot as int]@.len() && buckets@[slot as int]@[e] == j && forall|f: int|
                0 <= f < e ==> !#[trigger] key_is(keys@, buckets@[slot as int]@[f], key.0, key.1@),
        r is None <==> forall|e: int|
            0 <= e < buckets@[slot as int]@.len() ==> !#[trigger] key_is(keys@, buckets@[slot as int]@[e], key.0, key.1@),
{
    let bucket = &buckets[slot];
    let mut e: usize = 0;
    while e < bucket.len()
        invariant
            slot < buckets@.len(),
            *bucket == buckets@[slot as int],
            buckets_ok(buckets@, keys@.len() as int),
            e <= bucket@.len(),
            forall|f: int| 0 <= f < e ==> !#[trigger] key_is(keys@, bucket@[f], key.0, key.1@),
        decreases bucket@.len() - e,
    {
        let id = bucket[e];
        proof {
            assert(buckets@[slot as int]@[e as int] < keys@.len());
        }
        if keys[id].0 == key.0 && same_ids(&keys[id].1, &key.1) {
            proof {
                assert(key_is(keys@, bucket@[e as int], key.0, key.1@));
            }
            return Some(id);
        }
        e += 1;
    }
    None
}

/// The bucket of a refinement key: its class, then its signature.
spec fn key_slot_of(class: usize, sig: Seq<usize>) -> int {
    ((class % BUCKETS) as int * 31 + subset_slot_of(sig)) % (BUCKETS as int)
}

/// Key `j` is recorded in bucket `b`.
spec fn in_bucket(buckets: Seq<Vec<usize>>, b: int, j: int) -> bool {
    exists|e: int| 0 <= e < buckets[b]@.len() && buckets[b]@[e] == j
}

/// One round of refinement: states get the same new class exactly when
/// they had the same class and the same signature, numbered in order of
/// first appearance.
fn refine<K: Clock>(
    dfa: &Dfa,
    reps: &Vec<char>,
    partition: &Vec<usize>,
    deadline_ms: u128,
    clock: &K,
) -> (r: Option<(Vec<usize>, usize)>)
    requires
        dfa.wf(),
        partition@.len() == dfa.states@.len(),
        forall|x: int| 0 <= x < partition@.len() ==> #[trigger] partition@[x] < dfa.states@.len(),
    ensures
        r matches Some((next, count)) ==> {
            &&& next@.len() == dfa.states@.len()
            &&& count <= dfa.states@.len()
            &&& next@[0] == 0
            &&& forall|x: int| 0 <= x < next@.len() ==> #[trigger] next@[x] < count
            &&& forall|j: int| 0 <= j < count ==> #[trigger] has_member(next@, j)
            &&& forall|x: usize, y: usize|
                x < next@.len() && y < next@.len() && #[trigger] next@[x as int] == #[trigger] next@[y as int] ==> partition@[x as int]
                    == partition@[y as int] && signature(*dfa, partition@, reps@, x) == signature(*dfa, partition@, reps@, y)
            &&& forall|x: usize, y: usize|
                x < next@.len() && y < next@.len() && #[trigger] partition@[x as int] == #[trigger] partition@[y as int]
                    && signature(*dfa, partition@, reps@, x) == signature(*dfa, partition@, reps@, y) ==> next@[x as int]
                    == next@[y as int]
        },
        r is None ==> exists|t: u128| #[trigger] clock.may_read(t) && t >= deadline_ms,
{
    let n = dfa.states.len();
    let mut keys: Vec<(usize, Vec<usize>)> = Vec::new();
    let mut buckets = empty_buckets();
    let mut next: Vec<usize> = Vec::new();
    let mut x: usize = 0;
    while x < n
        invariant
            dfa.wf(),
            n == dfa.states@.len(),
            partition@.len() == n,
            forall|y: int| 0 <= y < partition@.len() ==> #[trigger] partition@[y] < n,
            x <= n,
            next@.len() == x,
            keys@.len() <= x,
            buckets_ok(buckets@, keys@.len() as int),
            x > 0 ==> next@[0] == 0,
            forall|y: int|
                0 <= y < x ==> #[trigger] next@[y] < keys@.len() && keys@[next@[y] as int].0 == partition@[y] && keys@[next@[y] as int].1@
                    == signature(*dfa, partition@, reps@, y as usize),
            forall|j: int| 0 <= j < keys@.len() ==> #[trigger] has_member(next@, j),
            forall|i: int, j: int|
                0 <= i < keys@.len() && 0 <= j < keys@.len() && i != j ==> !(#[trigger] keys@[i].0 == #[trigger] keys@[j].0
                    && keys@[i].1@ == keys@[j].1@),
            forall|j: int| 0 <= j < keys@.len() ==> #[trigger] in_bucket(buckets@, key_slot_of(keys@[j].0, keys@[j].1@), j),
        decreases n - x,
    {
        if x % 4096 == 0 {
            if clock.read_ms() >= deadline_ms {
                return None;
            }
        }
        let mut sig: Vec<usize> = Vec::new();
        let mut r: usize = 0;
        while r < reps.len()
            invariant
                dfa.wf(),
                x < n,
                n == dfa.states@.len(),
                partition@.len() == n,
                forall|y: int| 0 <= y < partition@.len() ==> #[trigger] partition@[y] < n,
                r <= reps@.len(),
                sig@ == signature(*dfa, partition@, reps@, x).subrange(0, r as int),
            decreases reps@.len() - r,
        {
            let target = lookup_transition(dfa, x, reps[r]);
            proof {
                let q = dfa.states@[x as int];
                assert forall|k: int| 0 <= k < q.transitions@.len() implies #[trigger] q.transitions@[k].1 < n by {}
                lemma_first_target_bound(q.transitions@, reps@[r as int] as int, n as int);
            }
            sig.push(partition[target]);
            proof {
                assert(sig@ =~= signature(*dfa, partition@, reps@, x).subrange(0, r + 1));
            }
            r += 1;
        }
        proof {
            assert(signature(*dfa, partition@, reps@, x).subrange(0, r as int) =~= signature(*dfa, partition@, reps@, x));
        }
        let key = (partition[x], sig);
        let slot = (partition[x] % BUCKETS * 31 + subset_slot(&key.1)) % BUCKETS;
        let ghost before_next = next@;
        let ghost before_keys = keys@;
        match find_key(&buckets, &keys, slot, &key) {
            Some(j) => {
                next.push(j);
                proof {
                    assert forall|j2: int| 0 <= j2 < keys@.len() implies #[trigger] has_member(next@, j2) by {
                        assert(has_member(before_next, j2));
                        let y = choose|y: int| 0 <= y < before_next.len() && #[trigger] before_next[y] == j2;
                        assert(next@[y] == before_next[y]);
                    }
                    assert forall|y: int|
                        0 <= y < x + 1 implies #[trigger] next@[y] < keys@.len() && keys@[next@[y] as int].0 == partition@[y]
                            && keys@[next@[y] as int].1@ == signature(*dfa, partition@, reps@, y as usize) by {
                        if y < x {
                            assert(next@[y] == before_next[y]);
                        }
                    }
                }
            },
            None => {
                let j = keys.len();
                let ghost before_buckets = buckets@;
                proof {
                    assert forall|i: int| 0 <= i < keys@.len() implies !(keys@[i].0 == key.0 && keys@[i].1@ == key.1@) by {
                        if keys@[i].0 == key.0 && keys@[i].1@ == key.1@ {
                            assert(in_bucket(buckets@, key_slot_of(keys@[i].0, keys@[i].1@), i));
                            let e = choose|e: int| 0 <= e < buckets@[slot as int]@.len() && buckets@[slot as int]@[e] == i;
                            assert(key_is(keys@, buckets@[slot as int]@[e], key.0, key.1@));
                        }
                    }
                }
                keys.push(key);
                bucket_add(&mut buckets, slot, j);
                next.push(j);
                proof {
                    assert(keys@[j as int] == key);
                    assert forall|i: int, j2: int|
                        0 <= i < keys@.len() && 0 <= j2 < keys@.len() && i != j2 implies !(#[trigger] keys@[i].0 == #[trigger] keys@[j2].0
                            && keys@[i].1@ == keys@[j2].1@) by {
                        if i < j && j2 < j {
                            assert(keys@[i] == before_keys[i]);
                            assert(keys@[j2] == before_keys[j2]);
                        } else if i < j {
                            assert(keys@[i] == before_keys[i]);
                        } else {
                            assert(keys@[j2] == before_keys[j2]);
                        }
                    }
                    assert forall|i: int| 0 <= i < keys@.len() implies #[trigger] in_bucket(buckets@, key_slot_of(keys@[i].0, keys@[i].1@), i) by {
                        let b = key_slot_of(keys@[i].0, keys@[i].1@);
                        if i < j {
                            assert(keys@[i] == before_keys[i]);
                            assert(in_bucket(before_buckets, b, i));
                            let e = choose|e: int| 0 <= e < before_buckets[b]@.len() && before_buckets[b]@[e] == i;
                            if b == slot {
                                assert(buckets@[b]@[e] == i);
                            } else {
                                assert(buckets@[b] == before_buckets[b]);
                            }
                        } else {
                            assert(b == slot);
                            assert(buckets@[b]@[before_buckets[b]@.len() as int] == i);
                        }
                    }
                    assert forall|j2: int| 0 <= j2 < keys@.len() implies #[trigger] has_member(next@, j2) by {
                        if j2 < j {
                            assert(has_member(before_next, j2));
                            let y = choose|y: int| 0 <= y < before_next.len() && #[trigger] before_next[y] == j2;
                            assert(next@[y] == before_next[y]);
                        } else {
                            assert(next@[x as int] == j2);
                        }
                    }
                    assert forall|y: int|
                        0 <= y < x + 1 implies #[trigger] next@[y] < keys@.len() && keys@[next@[y] as int].0 == partition@[y]
                            && keys@[next@[y] as int].1@ == signature(*dfa, partition@, reps@, y as usize) by {
                        if y < x {
                            assert(next@[y] == before_next[y]);
                            assert(keys@[next@[y] as int] == before_keys[next@[y] as int]);
                        }
                    }
                }
            },
        }
        x += 1;
    }
    let count = keys.len();
    proof {
        assert forall|a: usize, b: usize|
            a < next@.len() && b < next@.len() && #[trigger] partition@[a as int] == #[trigger] partition@[b as int]
                && signature(*dfa, partition@, reps@, a) == signature(*dfa, partition@, reps@, b) implies next@[a as int]
                == next@[b as int] by {
            assert(keys@[next@[a as int] as int].1@ == signature(*dfa, partition@, reps@, a));
            assert(keys@[next@[b as int] as int].1@ == signature(*dfa, partition@, reps@, b));
        }
        assert forall|a: usize, b: usize|
            a < next@.len() && b < next@.len() && #[trigger] next@[a as int] == #[trigger] next@[b as int] implies partition@[a as int]
                == partition@[b as int] && signature(*dfa, partition@, reps@, a) == signature(*dfa, partition@, reps@, b) by {
            assert(keys@[next@[a as int] as int].1@ == signature(*dfa, partition@, reps@, a));
            assert(keys@[next@[b as int] as int].1@ == signature(*dfa, partition@, reps@, b));
        }
    }
    Some((next, count))
}


/// Renaming the targets of an edge list by `part` renames where it leads.
proof fn lemma_first_target_map(ts: Seq<(CharSet, usize)>, ms: Seq<(CharSet, usize)>, part: Seq<usize>, c: int)
    requires
        ms.len() == ts.len(),
        part.len() > DEAD,
        part[DEAD as int] == DEAD,
        forall|i: int| 0 <= i < ts.len() ==> #[trigger] ts[i].1 < part.len(),
        forall|i: int, v: int| 0 <= i < ts.len() ==> (#[trigger] ms[i].0.has(v) <==> ts[i].0.has(v)),
        forall|i: int| 0 <= i < ts.len() ==> #[trigger] ms[i].1 == part[ts[i].1 as int],
    ensures
        first_target(ms, c) == part[first_target(ts, c) as int],
    decreases ts.len(),
{
    if ts.len() > 0 {
        assert(ms[0].0.has(c) == ts[0].0.has(c));
        if !ts[0].0.has(c) {
            let (ts2, ms2) = (ts.drop_first(), ms.drop_first());
            assert forall|i: int| 0 <= i < ts2.len() implies #[trigger] ts2[i].1 < part.len() by {
                assert(ts2[i] == ts[i + 1]);
            }
            assert forall|i: int, v: int| 0 <= i < ts2.len() implies (#[trigger] ms2[i].0.has(v) <==> ts2[i].0.has(v)) by {
                assert(ts2[i] == ts[i + 1]);
                assert(ms2[i] == ms[i + 1]);
                assert(ms[i + 1].0.has(v) <==> ts[i + 1].0.has(v));
            }
            assert forall|i: int| 0 <= i < ts2.len() implies #[trigger] ms2[i].1 == part[ts2[i].1 as int] by {
                assert(ts2[i] == ts[i + 1]);
                assert(ms2[i] == ms[i + 1]);
            }
            lemma_first_target_map(ts2, ms2, part, c);
        }
    }
}

/// Characters that every class of the automaton treats alike take the same
/// edge out of every state.
proof fn lemma_next_alike(d: Dfa, x: usize, c: char, e: char)
    requires
        x < d.states@.len(),
        same_membership(all_state_sets(d.states@), c as int, e as int),
    ensures
        d.next(x, c) == d.next(x, e),
{
    lemma_all_state_sets(d.states@);
    let ts = d.states@[x as int].transitions@;
    let all = all_state_sets(d.states@);
    assert forall|k: int| 0 <= k < edge_sets(ts).len() implies (#[trigger] edge_sets(ts)[k].has(c as int) <==> edge_sets(ts)[k].has(
        e as int,
    )) by {
        assert(edge_sets(ts)[k] == ts[k].0);
        assert(all.contains(d.states@[x as int].transitions@[k].0));
        let i = choose|i: int| 0 <= i < all.len() && all[i] == ts[k].0;
        assert(all[i].has(c as int) <==> all[i].has(e as int));
    }
    lemma_first_target_alike(ts, c as int, e as int);
}

/// A character no class of the automaton holds leads every state to DEAD.
proof fn lemma_next_none(d: Dfa, x: usize, c: char)
    requires
        x < d.states@.len(),
        !any_has(all_state_sets(d.states@), c as int),
    ensures
        d.next(x, c) == DEAD,
{
    lemma_all_state_sets(d.states@);
    let ts = d.states@[x as int].transitions@;
    let all = all_state_sets(d.states@);
    if any_has(edge_sets(ts), c as int) {
        let k = choose|k: int| 0 <= k < edge_sets(ts).len() && #[trigger] edge_sets(ts)[k].has(c as int);
        assert(edge_sets(ts)[k] == ts[k].0);
        assert(all.contains(d.states@[x as int].transitions@[k].0));
        let i = choose|i: int| 0 <= i < all.len() && all[i] == ts[k].0;
    }
    lemma_first_target_none(ts, c as int);
}

/// State `k` of `m` is the class of state `rep[k]` of `d`: same acceptance,
/// and edges with the same classes renamed by `part`.
spec fn quotient_ok(ms: Seq<DfaState>, d: Dfa, part: Seq<usize>, rep: Seq<usize>, k: int) -> bool {
    &&& rep[k] < d.states@.len()
    &&& part[rep[k] as int] == k
    &&& ms[k].accepting == d.states@[rep[k] as int].accepting
    &&& ms[k].transitions@.len() == d.states@[rep[k] as int].transitions@.len()
    &&& forall|i: int, v: int|
        0 <= i < ms[k].transitions@.len() ==> (#[trigger] ms[k].transitions@[i].0.has(v) <==> d.states@[rep[k] as int].transitions@[i].0.has(v))
    &&& forall|i: int|
        0 <= i < ms[k].transitions@.len() ==> #[trigger] ms[k].transitions@[i].1 == part[d.states@[rep[k] as int].transitions@[i].1 as int]
}

/// States whose successors on one character can be told apart can be
/// told apart themselves.
proof fn lemma_distinguish_step(d: Dfa, x: usize, y: usize, c: char)
    requires
        d.distinguishable(d.next(x, c), d.next(y, c)),
    ensures
        d.distinguishable(x, y),
{
    let w = choose|w: Seq<char>| #[trigger] d.accepts_from(d.next(x, c), w) != d.accepts_from(d.next(y, c), w);
    let v = seq![c] + w;
    assert(v[0] == c);
    assert(v.drop_first() =~= w);
    assert(d.accepts_from(x, v) != d.accepts_from(y, v));
}

/// States of different classes of a partition that only ever split
/// distinguishable states, whose signatures differ, can be told apart.
proof fn lemma_signature_distinguishes(d: Dfa, part: Seq<usize>, reps: Seq<char>, a: usize, b: usize)
    requires
        d.wf(),
        part.len() == d.states@.len(),
        a < d.states@.len(),
        b < d.states@.len(),
        forall|x: usize, y: usize|
            x < d.states@.len() && y < d.states@.len() && #[trigger] part[x as int] != #[trigger] part[y as int]
                ==> d.distinguishable(x, y),
        signature(d, part, reps, a) != signature(d, part, reps, b),
    ensures
        d.distinguishable(a, b),
{
    let sa = signature(d, part, reps, a);
    let sb = signature(d, part, reps, b);
    if forall|r: int| 0 <= r < reps.len() ==> sa[r] == sb[r] {
        assert(sa =~= sb);
    }
    let r = choose|r: int| 0 <= r < reps.len() && sa[r] != sb[r];
    let c = reps[r];
    d.lemma_next_bound(a, c);
    d.lemma_next_bound(b, c);
    assert(part[d.next(a, c) as int] != part[d.next(b, c) as int]);
    lemma_distinguish_step(d, a, b, c);
}

/// On one character the quotient moves to the class of the state `d`
/// moves to.
proof fn lemma_quotient_next(m: Dfa, d: Dfa, part: Seq<usize>, rep: Seq<usize>, reps: Seq<char>, q: usize, c: char)
    requires
        d.wf(),
        q < d.states@.len(),
        part.len() == d.states@.len(),
        part[DEAD as int] == DEAD,
        forall|x: int| 0 <= x < part.len() ==> #[trigger] part[x] < m.states@.len(),
        m.states@.len() == rep.len(),
        stable(d, part, reps),
        forall|c: char| #[trigger] any_has(all_state_sets(d.states@), c as int) ==> exists|i: int|
            0 <= i < reps.len() && same_membership(all_state_sets(d.states@), c as int, #[trigger] reps[i] as int),
        forall|k: int| 0 <= k < m.states@.len() ==> #[trigger] quotient_ok(m.states@, d, part, rep, k),
    ensures
        m.next(part[q as int], c) == part[d.next(q, c) as int],
{
    let k = part[q as int];
    assert(quotient_ok(m.states@, d, part, rep, k as int));
    let r = rep[k as int];
    let ts = d.states@[r as int].transitions@;
    assert forall|i: int| 0 <= i < ts.len() implies #[trigger] ts[i].1 < part.len() by {
        assert(d.states@[r as int].transitions@[i].1 < d.states@.len());
    }
    lemma_first_target_map(ts, m.states@[k as int].transitions@, part, c as int);
    if any_has(all_state_sets(d.states@), c as int) {
        let i = choose|i: int| 0 <= i < reps.len() && same_membership(all_state_sets(d.states@), c as int, #[trigger] reps[i] as int);
        lemma_next_alike(d, r, c, reps[i]);
        lemma_next_alike(d, q, c, reps[i]);
        assert(part[r as int] == part[q as int]);
        assert(signature(d, part, reps, r) == signature(d, part, reps, q));
        assert(signature(d, part, reps, r)[i] == part[d.next(r, reps[i]) as int]);
        assert(signature(d, part, reps, q)[i] == part[d.next(q, reps[i]) as int]);
    } else {
        lemma_next_none(d, r, c);
        lemma_next_none(d, q, c);
    }
}

/// Reading `w` from the class of `q`, the quotient reaches the class of the
/// state `d` reaches from `q`.
proof fn lemma_quotient_run_from(m: Dfa, d: Dfa, part: Seq<usize>, rep: Seq<usize>, reps: Seq<char>, q: usize, w: Seq<char>)
    requires
        d.wf(),
        q < d.states@.len(),
        part.len() == d.states@.len(),
        part[DEAD as int] == DEAD,
        forall|x: int| 0 <= x < part.len() ==> #[trigger] part[x] < m.states@.len(),
        m.states@.len() == rep.len(),
        stable(d, part, reps),
        forall|c: char| #[trigger] any_has(all_state_sets(d.states@), c as int) ==> exists|i: int|
            0 <= i < reps.len() && same_membership(all_state_sets(d.states@), c as int, #[trigger] reps[i] as int),
        forall|k: int| 0 <= k < m.states@.len() ==> #[trigger] quotient_ok(m.states@, d, part, rep, k),
    ensures
        m.run_from(part[q as int], w) == part[d.run_from(q, w) as int],
    decreases w.len(),
{
    if w.len() > 0 {
        lemma_quotient_next(m, d, part, rep, reps, q, w[0]);
        d.lemma_next_bound(q, w[0]);
        lemma_quotient_run_from(m, d, part, rep, reps, d.next(q, w[0]), w.drop_first());
    }
}

/// Reading `w`, the quotient reaches the class of the state `d` reaches.
proof fn lemma_quotient_run(m: Dfa, d: Dfa, part: Seq<usize>, rep: Seq<usize>, reps: Seq<char>, w: Seq<char>)
    requires
        d.wf(),
        part.len() == d.states@.len(),
        part[DEAD as int] == DEAD,
        forall|x: int| 0 <= x < part.len() ==> #[trigger] part[x] < m.states@.len(),
        m.states@.len() == rep.len(),
        m.start == part[d.start as int],
        stable(d, part, reps),
        forall|c: char| #[trigger] any_has(all_state_sets(d.states@), c as int) ==> exists|i: int|
            0 <= i < reps.len() && same_membership(all_state_sets(d.states@), c as int, #[trigger] reps[i] as int),
        forall|k: int| 0 <= k < m.states@.len() ==> #[trigger] quotient_ok(m.states@, d, part, rep, k),
    ensures
        m.run(w) == part[d.run(w) as int],
    decreases w.len(),
{
    if w.len() > 0 {
        let prefix = w.drop_last();
        let c = w.last();
        lemma_quotient_run(m, d, part, rep, reps, prefix);
        m.lemma_run_push(prefix, c);
        d.lemma_run_push(prefix, c);
        assert(prefix.push(c) =~= w);
        d.lemma_run_bound(prefix);
        let q = d.run(prefix);
        let k = part[q as int];
        assert(quotient_ok(m.states@, d, part, rep, k as int));
        let r = rep[k as int];
        let ts = d.states@[r as int].transitions@;
        assert forall|i: int| 0 <= i < ts.len() implies #[trigger] ts[i].1 < part.len() by {
            assert(d.states@[r as int].transitions@[i].1 < d.states@.len());
        }
        lemma_first_target_map(ts, m.states@[k as int].transitions@, part, c as int);
        if any_has(all_state_sets(d.states@), c as int) {
            let i = choose|i: int| 0 <= i < reps.len() && same_membership(all_state_sets(d.states@), c as int, #[trigger] reps[i] as int);
            lemma_next_alike(d, r, c, reps[i]);
            lemma_next_alike(d, q, c, reps[i]);
            assert(part[r as int] == part[q as int]);
            assert(signature(d, part, reps, r) == signature(d, part, reps, q));
            assert(signature(d, part, reps, r)[i] == part[d.next(r, reps[i]) as int]);
            assert(signature(d, part, reps, q)[i] == part[d.next(q, reps[i]) as int]);
        } else {
            lemma_next_none(d, r, c);
            lemma_next_none(d, q, c);
        }
    }
}

/// Moore-style partition refinement: start from accepting versus not, and
/// split classes until every class steps into the same classes on every
/// representative character; each class becomes one state. Stops with
/// `Timeout` once `deadline` has passed since `started`.
///
/// Each round either settles or splits a class, so refinement settles
/// within as many rounds as there are states; only the timeout stops it.
pub fn minimize(dfa: &Dfa, started: Instant, deadline: Duration) -> (r: Result<Dfa, BackendStatus>)
    requires
        dfa.wf(),
        dfa.scalar_edges(),
    ensures
        match r {
            Ok(m) => m.wf() && m.scalar_edges() && m.states@.len() <= dfa.states@.len() && (forall|w: Seq<char>|
                #[trigger] m.accepts(w) == dfa.accepts(w)) && forall|p: usize, q: usize|
                p < m.states@.len() && q < m.states@.len() && p != q ==> #[trigger] m.distinguishable(p, q),
            Err(status) => status == BackendStatus::Timeout,
        },
{
    minimize_within(dfa, duration_millis(&deadline), &WallClock::since(started))
}

/// [`minimize`] against `clock`: `Timeout` comes only after a reading of
/// at least `deadline_ms`, and a zero deadline stops it before the first
/// round of refinement.
pub fn minimize_within<K: Clock>(dfa: &Dfa, deadline_ms: u128, clock: &K) -> (r: Result<Dfa, BackendStatus>)
    requires
        dfa.wf(),
        dfa.scalar_edges(),
    ensures
        match r {
            Ok(m) => m.wf() && m.scalar_edges() && m.states@.len() <= dfa.states@.len() && (forall|w: Seq<char>|
                #[trigger] m.accepts(w) == dfa.accepts(w)) && forall|p: usize, q: usize|
                p < m.states@.len() && q < m.states@.len() && p != q ==> #[trigger] m.distinguishable(p, q),
            Err(status) => status == BackendStatus::Timeout,
        },
        r matches Err(BackendStatus::Timeout) ==> exists|t: u128| #[trigger] clock.may_read(t) && t >= deadline_ms,
        deadline_ms == 0 ==> r == Err::<Dfa, BackendStatus>(BackendStatus::Timeout),
{
    let all_sets = all_edge_sets(dfa);
    let reps = representative_chars(&all_sets);
    proof {
        lemma_all_state_sets(dfa.states@);
        let all = all_state_sets(dfa.states@);
        assert forall|k: int, v: int| 0 <= k < all.len() && #[trigger] all[k].has(v) implies crate::charset::is_scalar(v) by {
            assert(is_dfa_edge_set(dfa.states@, all[k]));
        }
    }
    let n = dfa.states.len();
    let mut partition: Vec<usize> = Vec::new();
    let mut saw_accepting = false;
    let mut x: usize = 0;
    while x < n
        invariant
            dfa.wf(),
            n == dfa.states@.len(),
            x <= n,
            partition@.len() == x,
            forall|y: int| 0 <= y < x ==> #[trigger] partition@[y] == if dfa.states@[y].accepting {
                1usize
            } else {
                0usize
            },
            saw_accepting ==> has_member(partition@, 1),
            !saw_accepting ==> forall|y: int| 0 <= y < x ==> !dfa.states@[y].accepting,
        decreases n - x,
    {
        let acc = dfa.states[x].accepting;
        let ghost before = partition@;
        partition.push(if acc {
            1
        } else {
            0
        });
        proof {
            if saw_accepting {
                let y = choose|y: int| 0 <= y < before.len() && before[y] == 1;
                assert(partition@[y] == before[y]);
                assert(has_member(partition@, 1));
            }
            if acc {
                assert(partition@[x as int] == 1);
                assert(has_member(partition@, 1));
            }
        }
        saw_accepting = saw_accepting || acc;
        x += 1;
    }
    let mut classes_now: usize = if saw_accepting {
        2
    } else {
        1
    };
    proof {
        assert forall|y: int| 0 <= y < n implies #[trigger] partition@[y] < n by {
            if dfa.states@[y].accepting {
                assert(y != 0);
            }
        }
        assert forall|a: usize, b: usize|
            a < n && b < n && #[trigger] partition@[a as int] != #[trigger] partition@[b as int] implies dfa.distinguishable(a, b) by {
            assert(dfa.accepts_from(a, Seq::empty()) != dfa.accepts_from(b, Seq::empty()));
        }
        assert(partition@[0] == 0);
        assert(has_member(partition@, 0));
        if saw_accepting {
            let y = choose|y: int| 0 <= y < n && partition@[y] == 1;
            assert(y != 0);
        }
        assert forall|y: int| 0 <= y < n implies #[trigger] partition@[y] < classes_now by {}
    }
    let mut count: usize = 0;
    loop
        invariant
            dfa.wf(),
            dfa.scalar_edges(),
            n == dfa.states@.len(),
            partition@.len() == n,
            forall|y: int| 0 <= y < n ==> #[trigger] partition@[y] < n,
            forall|a: usize, b: usize|
                a < n && b < n && #[trigger] partition@[a as int] == #[trigger] partition@[b as int] ==> dfa.states@[a as int].accepting
                    == dfa.states@[b as int].accepting,
            1 <= classes_now <= n,
            partition@[0] == 0,
            forall|y: int| 0 <= y < n ==> #[trigger] partition@[y] < classes_now,
            forall|j: int| 0 <= j < classes_now ==> #[trigger] has_member(partition@, j),
            forall|a: usize, b: usize|
                a < n && b < n && #[trigger] partition@[a as int] != #[trigger] partition@[b as int] ==> dfa.distinguishable(a, b),
        ensures
            partition@.len() == n,
            stable(*dfa, partition@, reps@),
            forall|a: usize, b: usize|
                a < n && b < n && #[trigger] partition@[a as int] != #[trigger] partition@[b as int] ==> dfa.distinguishable(a, b),
            count <= n,
            partition@[0] == 0,
            forall|y: int| 0 <= y < n ==> #[trigger] partition@[y] < count,
            forall|j: int| 0 <= j < count ==> #[trigger] has_member(partition@, j),
            deadline_ms > 0,
        decreases n - classes_now,
    {
        if clock.read_ms() >= deadline_ms {
            return Err(BackendStatus::Timeout);
        }
        match refine(dfa, &reps, &partition, deadline_ms, clock) {
            None => {
                return Err(BackendStatus::Timeout);
            },
            Some((next, classes)) => {
                proof {
                    lemma_refinement_classes(partition@, next@, classes_now as nat, classes as nat);
                }
                if classes == classes_now {
                    count = classes_now;
                    proof {
                        assert forall|a: usize, b: usize|
                            a < n && b < n && #[trigger] partition@[a as int] == #[trigger] partition@[b as int] implies dfa.states@[a as int].accepting
                                == dfa.states@[b as int].accepting && signature(*dfa, partition@, reps@, a) == signature(
                                *dfa,
                                partition@,
                                reps@,
                                b,
                            ) by {
                            assert(next@[a as int] == next@[b as int]);
                        }
                    }
                    break ;
                }
                proof {
                    assert forall|a: usize, b: usize|
                        a < n && b < n && #[trigger] next@[a as int] == #[trigger] next@[b as int] implies dfa.states@[a as int].accepting
                            == dfa.states@[b as int].accepting by {
                        assert(partition@[a as int] == partition@[b as int]);
                    }
                    assert forall|y: int| 0 <= y < n implies #[trigger] next@[y] < n by {}
                    assert forall|a: usize, b: usize|
                        a < n && b < n && #[trigger] next@[a as int] != #[trigger] next@[b as int] implies dfa.distinguishable(a, b) by {
                        if partition@[a as int] == partition@[b as int] {
                            assert(signature(*dfa, partition@, reps@, a) != signature(*dfa, partition@, reps@, b));
                            lemma_signature_distinguishes(*dfa, partition@, reps@, a, b);
                        }
                    }
                }
                partition = next;
                classes_now = classes;
            },
        }
    }
    let mut rep_of: Vec<Option<usize>> = Vec::new();
    let mut j: usize = 0;
    while j < count
        invariant
            j <= count,
            rep_of@.len() == j,
            forall|i: int| 0 <= i < j ==> (#[trigger] rep_of@[i]) is None,
        decreases count - j,
    {
        rep_of.push(None);
        j += 1;
    }
    let mut x: usize = 0;
    while x < n
        invariant
            n == dfa.states@.len(),
            partition@.len() == n,
            forall|y: int| 0 <= y < n ==> #[trigger] partition@[y] < count,
            partition@[0] == 0,
            rep_of@.len() == count,
            x <= n,
            forall|i: int| 0 <= i < count ==> (#[trigger] rep_of@[i] matches Some(r) ==> r < n && partition@[r as int] == i),
            forall|y: int| 0 <= y < x ==> #[trigger] rep_of@[partition@[y] as int] is Some,
            x > 0 ==> rep_of@[0] == Some(0usize),
            x == 0 ==> rep_of@[0] is None,
        decreases n - x,
    {
        let class = partition[x];
        if rep_of[class].is_none() {
            let ghost before = rep_of@;
            rep_of.set(class, Some(x));
            proof {
                assert forall|i: int| 0 <= i < count implies (#[trigger] rep_of@[i] matches Some(r) ==> r < n && partition@[r as int] == i) by {
                    if i != class {
                        assert(rep_of@[i] == before[i]);
                    }
                }
                assert forall|y: int| 0 <= y < x + 1 implies #[trigger] rep_of@[partition@[y] as int] is Some by {
                    if partition@[y] != class {
                        assert(rep_of@[partition@[y] as int] == before[partition@[y] as int]);
                    }
                }
                if x == 0 {
                    assert(class == 0);
                } else {
                    assert(class != 0);
                    assert(rep_of@[0] == before[0]);
                }
            }
        }
        x += 1;
    }
    let mut new_states: Vec<DfaState> = Vec::new();
    let ghost mut rep_seq: Seq<usize> = Seq::empty();
    let mut k: usize = 0;
    while k < count
        invariant
            dfa.wf(),
            dfa.scalar_edges(),
            n == dfa.states@.len(),
            partition@.len() == n,
            forall|y: int| 0 <= y < n ==> #[trigger] partition@[y] < count,
            forall|jj: int| 0 <= jj < count ==> #[trigger] has_member(partition@, jj),
            rep_of@.len() == count,
            forall|i: int| 0 <= i < count ==> (#[trigger] rep_of@[i] matches Some(r) ==> r < n && partition@[r as int] == i),
            forall|y: int| 0 <= y < n ==> #[trigger] rep_of@[partition@[y] as int] is Some,
            n > 0 ==> rep_of@[0] == Some(0usize),
            k <= count,
            new_states@.len() == k,
            rep_seq.len() == k,
            forall|kk: int| 0 <= kk < k ==> rep_of@[kk] == Some(#[trigger] rep_seq[kk]),
            forall|kk: int| 0 <= kk < k ==> #[trigger] quotient_ok(new_states@, *dfa, partition@, rep_seq, kk),
            forall|kk: int, i: int|
                0 <= kk < k && 0 <= i < new_states@[kk].transitions@.len() ==> #[trigger] new_states@[kk].transitions@[i].1 < count,
        decreases count - k,
    {
        proof {
            assert(has_member(partition@, k as int));
            let y = choose|y: int| 0 <= y < partition@.len() && #[trigger] partition@[y] == k;
            assert(rep_of@[partition@[y] as int] is Some);
        }
        let r = match rep_of[k] {
            Some(r) => r,
            None => {
                proof {
                    assert(false);
                }
                0
            },
        };
        let source = &dfa.states[r];
        let mut transitions: Vec<(CharSet, usize)> = Vec::new();
        let mut t: usize = 0;
        while t < source.transitions.len()
            invariant
                dfa.wf(),
                r < n,
                n == dfa.states@.len(),
                *source == dfa.states@[r as int],
                partition@.len() == n,
                forall|y: int| 0 <= y < n ==> #[trigger] partition@[y] < count,
                t <= source.transitions@.len(),
                transitions@.len() == t,
                forall|i: int, v: int| 0 <= i < t ==> (#[trigger] transitions@[i].0.has(v) <==> source.transitions@[i].0.has(v)),
                forall|i: int| 0 <= i < t ==> #[trigger] transitions@[i].1 == partition@[source.transitions@[i].1 as int],
                forall|i: int| 0 <= i < t ==> #[trigger] transitions@[i].1 < count,
            decreases source.transitions@.len() - t,
        {
            let (set, target) = (&source.transitions[t].0, source.transitions[t].1);
            proof {
                assert(dfa.states@[r as int].transitions@[t as int].1 < n);
            }
            let copy = set.clone();
            let ghost before = transitions@;
            transitions.push((copy, partition[target]));
            proof {
                assert forall|i: int, v: int| 0 <= i < t + 1 implies (#[trigger] transitions@[i].0.has(v) <==> source.transitions@[i].0.has(v)) by {
                    if i < t {
                        assert(transitions@[i] == before[i]);
                    }
                }
                assert forall|i: int| 0 <= i < t + 1 implies #[trigger] transitions@[i].1 == partition@[source.transitions@[i].1 as int] by {
                    if i < t {
                        assert(transitions@[i] == before[i]);
                    }
                }
                assert forall|i: int| 0 <= i < t + 1 implies #[trigger] transitions@[i].1 < count by {
                    if i < t {
                        assert(transitions@[i] == before[i]);
                    }
                }
            }
            t += 1;
        }
        let members = copy_ids(&source.members);
        let ghost before_states = new_states@;
        let ghost before_rep = rep_seq;
        let state = DfaState { accepting: source.accepting, transitions, members };
        new_states.push(state);
        proof {
            rep_seq = rep_seq.push(r);
            assert(new_states@ == before_states.push(state));
            assert forall|kk: int| 0 <= kk < k + 1 implies #[trigger] quotient_ok(new_states@, *dfa, partition@, rep_seq, kk) by {
                if kk < k {
                    assert(new_states@[kk] == before_states[kk]);
                    assert(rep_seq[kk] == before_rep[kk]);
                    assert(quotient_ok(before_states, *dfa, partition@, before_rep, kk));
                } else {
                    assert(new_states@[kk] == state);
                    assert(rep_seq[kk] == r);
                }
            }
            assert forall|kk: int| 0 <= kk < k + 1 implies rep_of@[kk] == Some(#[trigger] rep_seq[kk]) by {
                if kk < k {
                    assert(rep_seq[kk] == before_rep[kk]);
                }
            }
            assert forall|kk: int, i: int|
                0 <= kk < k + 1 && 0 <= i < new_states@[kk].transitions@.len() implies #[trigger] new_states@[kk].transitions@[i].1 < count by {
                if kk < k {
                    assert(new_states@[kk] == before_states[kk]);
                }
            }
        }
        k += 1;
    }
    let start = partition[dfa.start];
    let m = Dfa { states: new_states, start };
    proof {
        assert(has_member(partition@, 0));
        assert(m.states@.len() == count);
        assert(rep_of@[0] == Some(0usize));
        assert(rep_seq[0] == 0);
        assert(quotient_ok(m.states@, *dfa, partition@, rep_seq, 0));
        assert(m.states@[0].transitions@.len() == 0);
        assert forall|q: int, kk: int|
            0 <= q < m.states@.len() && 0 <= kk < m.states@[q].transitions@.len() implies #[trigger] m.states@[q].transitions@[kk].1
                < m.states@.len() by {}
        assert forall|q: int, kk: int, v: int|
            0 <= q < m.states@.len() && 0 <= kk < m.states@[q].transitions@.len() && #[trigger] m.states@[q].transitions@[kk].0.has(v)
                implies crate::charset::is_scalar(v) by {
            assert(quotient_ok(m.states@, *dfa, partition@, rep_seq, q));
            assert(dfa.states@[rep_seq[q] as int].transitions@[kk].0.has(v));
        }
        assert(m.wf());
        assert forall|w: Seq<char>| #[trigger] m.accepts(w) == dfa.accepts(w) by {
            lemma_quotient_run(m, *dfa, partition@, rep_seq, reps@, w);
            dfa.lemma_run_bound(w);
            let q = dfa.run(w);
            let kk = partition@[q as int];
            assert(quotient_ok(m.states@, *dfa, partition@, rep_seq, kk as int));
            let r = rep_seq[kk as int];
            assert(partition@[r as int] == partition@[q as int]);
        }
        assert forall|p: usize, q: usize| p < m.states@.len() && q < m.states@.len() && p != q implies #[trigger] m.distinguishable(
            p,
            q,
        ) by {
            assert(quotient_ok(m.states@, *dfa, partition@, rep_seq, p as int));
            assert(quotient_ok(m.states@, *dfa, partition@, rep_seq, q as int));
            let rp = rep_seq[p as int];
            let rq = rep_seq[q as int];
            assert(partition@[rp as int] != partition@[rq as int]);
            assert(dfa.distinguishable(rp, rq));
            let w = choose|w: Seq<char>| #[trigger] dfa.accepts_from(rp, w) != dfa.accepts_from(rq, w);
            lemma_quotient_run_from(m, *dfa, partition@, rep_seq, reps@, rp, w);
            lemma_quotient_run_from(m, *dfa, partition@, rep_seq, reps@, rq, w);
            dfa.lemma_run_from_bound(rp, w);
            dfa.lemma_run_from_bound(rq, w);
            let yp = dfa.run_from(rp, w);
            let yq = dfa.run_from(rq, w);
            let kp = partition@[yp as int];
            let kq = partition@[yq as int];
            assert(quotient_ok(m.states@, *dfa, partition@, rep_seq, kp as int));
            assert(quotient_ok(m.states@, *dfa, partition@, rep_seq, kq as int));
            assert(partition@[rep_seq[kp as int] as int] == partition@[yp as int]);
            assert(partition@[rep_seq[kq as int] as int] == partition@[yq as int]);
            assert(m.accepts_from(p, w) != m.accepts_from(q, w));
        }
    }
    Ok(m)
}


/// `(accepting, transitions)` is the canonical form of `dfa` over `reps`
/// for the discovery order `order`: state `i` of the form is `order[i]`,
/// the start first, and its `r`-th edge leads to the form's state for the
/// target of `reps[r]`.
pub open spec fn canonical_ok(dfa: Dfa, reps: Seq<char>, accepting: Seq<bool>, transitions: Seq<Vec<usize>>, order: Seq<usize>) -> bool {
    &&& order.len() >= 1
    &&& order[0] == dfa.start
    &&& accepting.len() == order.len()
    &&& transitions.len() == order.len()
    &&& forall|i: int| 0 <= i < order.len() ==> #[trigger] order[i] < dfa.states@.len()
    &&& forall|i: int| 0 <= i < order.len() ==> #[trigger] accepting[i] == dfa.states@[order[i] as int].accepting
    &&& forall|i: int| 0 <= i < order.len() ==> (#[trigger] transitions[i])@.len() == reps.len()
    &&& forall|i: int, r: int|
        0 <= i < order.len() && 0 <= r < reps.len() ==> {
            &&& (#[trigger] transitions[i]@[r]) < order.len()
            &&& order[transitions[i]@[r] as int] == dfa.next(order[i], reps[r])
        }
}

/// Relabel the states reachable on `reps` in breadth-first order from the
/// start, exploring each state's edges in the order of `reps`; two
/// automata whose reachable parts are isomorphic get identical forms.
fn canonical_form(dfa: &Dfa, reps: &Vec<char>) -> (r: (Vec<bool>, Vec<Vec<usize>>))
    requires
        dfa.wf(),
    ensures
        exists|order: Seq<usize>| canonical_ok(*dfa, reps@, r.0@, r.1@, order),
{
    let n = dfa.states.len();
    let mut seen: Vec<bool> = Vec::new();
    let mut canon_id: Vec<usize> = Vec::new();
    let mut z: usize = 0;
    while z < n
        invariant
            z <= n,
            seen@.len() == z,
            canon_id@.len() == z,
            forall|i: int| 0 <= i < z ==> !(#[trigger] seen@[i]),
        decreases n - z,
    {
        seen.push(false);
        canon_id.push(0);
        z += 1;
    }
    let mut order: Vec<usize> = Vec::new();
    order.push(dfa.start);
    seen.set(dfa.start, true);
    canon_id.set(dfa.start, 0);
    proof {
        lemma_count_true_bound(seen@);
    }
    let mut head: usize = 0;
    while head < order.len()
        invariant
            dfa.wf(),
            n == dfa.states@.len(),
            seen@.len() == n,
            canon_id@.len() == n,
            order@.len() >= 1,
            order@[0] == dfa.start,
            head <= order@.len(),
            count_true(seen@) <= n,
            forall|i: int| 0 <= i < order@.len() ==> #[trigger] order@[i] < n,
            forall|i: int| 0 <= i < order@.len() ==> seen@[#[trigger] order@[i] as int] && canon_id@[order@[i] as int] == i,
            forall|q: int| 0 <= q < n && #[trigger] seen@[q] ==> canon_id@[q] < order@.len() && order@[canon_id@[q] as int] == q,
            forall|i: int, r: int|
                0 <= i < head && 0 <= r < reps@.len() ==> #[trigger] seen@[dfa.next(order@[i], reps@[r]) as int],
        decreases n - count_true(seen@), order@.len() - head,
    {
        let state_id = order[head];
        let ghost count0 = count_true(seen@);
        let ghost len0 = order@.len();
        let mut t: usize = 0;
        while t < reps.len()
            invariant
                dfa.wf(),
                n == dfa.states@.len(),
                seen@.len() == n,
                canon_id@.len() == n,
                order@.len() >= 1,
                order@[0] == dfa.start,
                head < order@.len(),
                state_id == order@[head as int],
                state_id < n,
                count_true(seen@) <= n,
                count_true(seen@) >= count0,
                count_true(seen@) == count0 ==> order@.len() == len0,
                forall|i: int| 0 <= i < order@.len() ==> #[trigger] order@[i] < n,
                forall|i: int| 0 <= i < order@.len() ==> seen@[#[trigger] order@[i] as int] && canon_id@[order@[i] as int] == i,
                forall|q: int| 0 <= q < n && #[trigger] seen@[q] ==> canon_id@[q] < order@.len() && order@[canon_id@[q] as int] == q,
                forall|i: int, r: int|
                    0 <= i < head && 0 <= r < reps@.len() ==> #[trigger] seen@[dfa.next(order@[i], reps@[r]) as int],
                t <= reps@.len(),
                forall|r: int| 0 <= r < t ==> #[trigger] seen@[dfa.next(state_id, reps@[r]) as int],
            decreases reps@.len() - t,
        {
            let target = lookup_transition(dfa, state_id, reps[t]);
            proof {
                dfa.lemma_run_bound(Seq::empty());
                let q = dfa.states@[state_id as int];
                assert forall|k: int| 0 <= k < q.transitions@.len() implies #[trigger] q.transitions@[k].1 < n by {}
                lemma_first_target_bound(q.transitions@, reps@[t as int] as int, n as int);
            }
            if !seen[target] {
                let ghost before_seen = seen@;
                let ghost before_order = order@;
                let ghost before_canon = canon_id@;
                let id = order.len();
                seen.set(target, true);
                canon_id.set(target, id);
                order.push(target);
                proof {
                    lemma_count_true_set(before_seen, target as int);
                    lemma_count_true_bound(seen@);
                    assert forall|i: int| 0 <= i < order@.len() implies seen@[#[trigger] order@[i] as int] && canon_id@[order@[i] as int]
                        == i by {
                        if i < before_order.len() {
                            assert(order@[i] == before_order[i]);
                            assert(before_seen[before_order[i] as int]);
                        }
                    }
                    assert forall|q: int| 0 <= q < n && #[trigger] seen@[q] implies canon_id@[q] < order@.len() && order@[canon_id@[q] as int]
                        == q by {
                        if q != target {
                            assert(before_seen[q]);
                        }
                    }
                    assert(seen@ == before_seen.update(target as int, true));
                    assert forall|i: int, r: int|
                        0 <= i < head && 0 <= r < reps@.len() implies #[trigger] seen@[dfa.next(order@[i], reps@[r]) as int] by {
                        assert(order@[i] == before_order[i]);
                        assert(before_seen[dfa.next(before_order[i], reps@[r]) as int]);
                        dfa.lemma_next_bound(before_order[i], reps@[r]);
                    }
                    assert forall|r: int| 0 <= r < t + 1 implies #[trigger] seen@[dfa.next(state_id, reps@[r]) as int] by {
                        dfa.lemma_next_bound(state_id, reps@[r]);
                        if r < t {
                            assert(before_seen[dfa.next(state_id, reps@[r]) as int]);
                        }
                    }
                    assert(order@[0] == before_order[0]);
                    assert(order@[head as int] == before_order[head as int]);
                }
            }
            t += 1;
        }
        head += 1;
    }
    let mut accepting: Vec<bool> = Vec::new();
    let mut transitions: Vec<Vec<usize>> = Vec::new();
    let mut i: usize = 0;
    while i < order.len()
        invariant
            dfa.wf(),
            n == dfa.states@.len(),
            seen@.len() == n,
            canon_id@.len() == n,
            order@.len() >= 1,
            order@[0] == dfa.start,
            forall|k: int| 0 <= k < order@.len() ==> #[trigger] order@[k] < n,
            forall|q: int| 0 <= q < n && #[trigger] seen@[q] ==> canon_id@[q] < order@.len() && order@[canon_id@[q] as int] == q,
            forall|k: int, r: int|
                0 <= k < order@.len() && 0 <= r < reps@.len() ==> #[trigger] seen@[dfa.next(order@[k], reps@[r]) as int],
            i <= order@.len(),
            accepting@.len() == i,
            transitions@.len() == i,
            forall|k: int| 0 <= k < i ==> #[trigger] accepting@[k] == dfa.states@[order@[k] as int].accepting,
            forall|k: int| 0 <= k < i ==> (#[trigger] transitions@[k])@.len() == reps@.len(),
            forall|k: int, r: int|
                0 <= k < i && 0 <= r < reps@.len() ==> {
                    &&& (#[trigger] transitions@[k]@[r]) < order@.len()
                    &&& order@[transitions@[k]@[r] as int] == dfa.next(order@[k], reps@[r])
                },
        decreases order@.len() - i,
    {
        let s = order[i];
        accepting.push(dfa.states[s].accepting);
        let mut row: Vec<usize> = Vec::new();
        let mut t: usize = 0;
        while t < reps.len()
            invariant
                dfa.wf(),
                n == dfa.states@.len(),
                seen@.len() == n,
                canon_id@.len() == n,
                i < order@.len(),
                s == order@[i as int],
                s < n,
                forall|q: int| 0 <= q < n && #[trigger] seen@[q] ==> canon_id@[q] < order@.len() && order@[canon_id@[q] as int] == q,
                forall|k: int, r: int|
                    0 <= k < order@.len() && 0 <= r < reps@.len() ==> #[trigger] seen@[dfa.next(order@[k], reps@[r]) as int],
                t <= reps@.len(),
                row@.len() == t,
                forall|r: int|
                    0 <= r < t ==> {
                        &&& (#[trigger] row@[r]) < order@.len()
                        &&& order@[row@[r] as int] == dfa.next(s, reps@[r])
                    },
            decreases reps@.len() - t,
        {
            let target = lookup_transition(dfa, s, reps[t]);
            proof {
                let q = dfa.states@[s as int];
                assert forall|k: int| 0 <= k < q.transitions@.len() implies #[trigger] q.transitions@[k].1 < n by {}
                lemma_first_target_bound(q.transitions@, reps@[t as int] as int, n as int);
                assert(seen@[dfa.next(order@[i as int], reps@[t as int]) as int]);
            }
            row.push(canon_id[target]);
            t += 1;
        }
        let ghost before = transitions@;
        transitions.push(row);
        proof {
            assert forall|k: int| 0 <= k < i + 1 implies (#[trigger] transitions@[k])@.len() == reps@.len() by {
                if k < i {
                    assert(transitions@[k] == before[k]);
                }
            }
            assert forall|k: int, r: int|
                0 <= k < i + 1 && 0 <= r < reps@.len() implies {
                    &&& (#[trigger] transitions@[k]@[r]) < order@.len()
                    &&& order@[transitions@[k]@[r] as int] == dfa.next(order@[k], reps@[r])
                } by {
                if k < i {
                    assert(transitions@[k] == before[k]);
                }
            }
        }
        i += 1;
    }
    let result = (accepting, transitions);
    proof {
        assert(canonical_ok(*dfa, reps@, result.0@, result.1@, order@));
    }
    result
}


/// The two states sit at the same place of the two discovery orders.
spec fn same_place(ol: Seq<usize>, or: Seq<usize>, a: usize, b: usize) -> bool {
    exists|i: int| 0 <= i < ol.len() && i < or.len() && #[trigger] ol[i] == a && or[i] == b
}

/// With equal canonical forms, a string leads both automata to the same
/// place of the forms, or both to DEAD.
proof fn lemma_isomorphic_run(
    left: Dfa,
    right: Dfa,
    reps: Seq<char>,
    acc: Seq<bool>,
    trans: Seq<Vec<usize>>,
    ol: Seq<usize>,
    or: Seq<usize>,
    w: Seq<char>,
)
    requires
        left.wf(),
        right.wf(),
        canonical_ok(left, reps, acc, trans, ol),
        canonical_ok(right, reps, acc, trans, or),
        forall|c: char| #[trigger] any_has(all_state_sets(left.states@) + all_state_sets(right.states@), c as int) ==> exists|i: int|
            0 <= i < reps.len() && same_membership(all_state_sets(left.states@) + all_state_sets(right.states@), c as int, #[trigger] reps[i] as int),
    ensures
        same_place(ol, or, left.run(w), right.run(w)) || (left.run(w) == DEAD && right.run(w) == DEAD),
    decreases w.len(),
{
    if w.len() == 0 {
        assert(ol[0] == left.start && or[0] == right.start);
    } else {
        let prefix = w.drop_last();
        let c = w.last();
        lemma_isomorphic_run(left, right, reps, acc, trans, ol, or, prefix);
        left.lemma_run_push(prefix, c);
        right.lemma_run_push(prefix, c);
        assert(prefix.push(c) =~= w);
        let a = left.run(prefix);
        let b = right.run(prefix);
        let la = all_state_sets(left.states@);
        let ra = all_state_sets(right.states@);
        if same_place(ol, or, a, b) {
            let i = choose|i: int| 0 <= i < ol.len() && i < or.len() && #[trigger] ol[i] == a && or[i] == b;
            if any_has(la + ra, c as int) {
                let r = choose|r: int| 0 <= r < reps.len() && same_membership(la + ra, c as int, #[trigger] reps[r] as int);
                lemma_split_sets(la, ra, c as int, reps[r] as int);
                lemma_next_alike(left, a, c, reps[r]);
                lemma_next_alike(right, b, c, reps[r]);
                let j = trans[i]@[r];
                assert(ol[j as int] == left.next(a, reps[r]));
                assert(or[j as int] == right.next(b, reps[r]));
                assert(same_place(ol, or, left.next(a, c), right.next(b, c)));
            } else {
                lemma_split_sets(la, ra, c as int, c as int);
                lemma_next_none(left, a, c);
                lemma_next_none(right, b, c);
            }
        }
    }
}

/// A copy of a list of flags compared entry by entry.
fn same_bools(a: &Vec<bool>, b: &Vec<bool>) -> (r: bool)
    ensures
        r == (a@ == b@),
{
    if a.len() != b.len() {
        return false;
    }
    let mut i: usize = 0;
    while i < a.len()
        invariant
            a@.len() == b@.len(),
            i <= a@.len(),
            forall|k: int| 0 <= k < i ==> a@[k] == b@[k],
        decreases a@.len() - i,
    {
        if a[i] != b[i] {
            return false;
        }
        i += 1;
    }
    proof {
        assert(a@ =~= b@);
    }
    true
}

/// Two tables of ids compared row by row.
fn same_rows(a: &Vec<Vec<usize>>, b: &Vec<Vec<usize>>) -> (r: bool)
    ensures
        r == (a@.len() == b@.len() && forall|i: int| 0 <= i < a@.len() ==> (#[trigger] a@[i])@ == b@[i]@),
{
    if a.len() != b.len() {
        return false;
    }
    let mut i: usize = 0;
    while i < a.len()
        invariant
            a@.len() == b@.len(),
            i <= a@.len(),
            forall|k: int| 0 <= k < i ==> (#[trigger] a@[k])@ == b@[k]@,
        decreases a@.len() - i,
    {
        if !same_ids(&a[i], &b[i]) {
            return false;
        }
        i += 1;
    }
    true
}

/// Equal canonical forms over representatives of every edge class of both
/// automata: then the two accept exactly the same strings.
fn dfas_isomorphic(left: &Dfa, right: &Dfa) -> (r: bool)
    requires
        left.wf(),
        right.wf(),
        left.scalar_edges(),
        right.scalar_edges(),
    ensures
        r ==> forall|w: Seq<char>| #[trigger] left.accepts(w) == right.accepts(w),
{
    let mut all_sets = all_edge_sets(left);
    let mut more = all_edge_sets(right);
    let ghost l = all_sets@;
    let ghost rr = more@;
    all_sets.append(&mut more);
    let ghost union = all_state_sets(left.states@) + all_state_sets(right.states@);
    proof {
        assert(all_sets@ == l + rr);
        assert(source_sets(all_sets@) =~= source_sets(l) + source_sets(rr));
        lemma_all_state_sets(left.states@);
        lemma_all_state_sets(right.states@);
        let la = all_state_sets(left.states@);
        let ra = all_state_sets(right.states@);
        assert forall|k: int, v: int| 0 <= k < union.len() && #[trigger] union[k].has(v) implies crate::charset::is_scalar(v) by {
            if k < la.len() {
                assert(union[k] == la[k]);
                assert(is_dfa_edge_set(left.states@, la[k]));
            } else {
                assert(union[k] == ra[k - la.len()]);
                assert(is_dfa_edge_set(right.states@, ra[k - la.len()]));
            }
        }
    }
    let reps = representative_chars(&all_sets);
    let (la, lt) = canonical_form(left, &reps);
    let (ra, rt) = canonical_form(right, &reps);
    let equal = same_bools(&la, &ra) && same_rows(&lt, &rt);
    proof {
        if equal {
            let ol = choose|order: Seq<usize>| canonical_ok(*left, reps@, la@, lt@, order);
            let or = choose|order: Seq<usize>| canonical_ok(*right, reps@, ra@, rt@, order);
            assert(canonical_ok(*right, reps@, la@, lt@, or)) by {
                assert forall|i: int| 0 <= i < or.len() implies (#[trigger] lt@[i])@.len() == reps@.len() by {
                    assert(lt@[i]@ == rt@[i]@);
                }
                assert forall|i: int, r: int|
                    0 <= i < or.len() && 0 <= r < reps@.len() implies {
                        &&& (#[trigger] lt@[i]@[r]) < or.len()
                        &&& or[lt@[i]@[r] as int] == right.next(or[i], reps@[r])
                    } by {
                    assert(lt@[i]@ == rt@[i]@);
                    assert(rt@[i]@[r] < or.len());
                }
            }
            assert forall|w: Seq<char>| #[trigger] left.accepts(w) == right.accepts(w) by {
                lemma_isomorphic_run(*left, *right, reps@, la@, lt@, ol, or, w);
                if same_place(ol, or, left.run(w), right.run(w)) {
                    let i = choose|i: int| 0 <= i < ol.len() && i < or.len() && #[trigger] ol[i] == left.run(w) && or[i] == right.run(w);
                    assert(la@[i] == left.states@[ol[i] as int].accepting);
                    assert(la@[i] == right.states@[or[i] as int].accepting);
                }
            }
        }
    }
    equal
}


/// Strings that lead an automaton to the same states keep doing so
/// whatever follows them.
proof fn lemma_same_run_extends(nfa: Nfa, w1: Seq<char>, w2: Seq<char>, s: Seq<char>)
    requires
        nfa.run(w1) == nfa.run(w2),
    ensures
        nfa.run(w1 + s) == nfa.run(w2 + s),
    decreases s.len(),
{
    if s.len() == 0 {
        assert(w1 + s =~= w1);
        assert(w2 + s =~= w2);
    } else {
        let t = s.drop_last();
        let c = s.last();
        lemma_same_run_extends(nfa, w1, w2, t);
        assert(w1 + s =~= (w1 + t).push(c));
        assert(w2 + s =~= (w2 + t).push(c));
        crate::analysis::lemma_run_push(nfa, w1 + t, c);
        crate::analysis::lemma_run_push(nfa, w2 + t, c);
    }
}

/// Reading `w` and then `s` ends where reading `s` from the state `w`
/// reaches ends.
proof fn lemma_run_then(d: Dfa, w: Seq<char>, s: Seq<char>)
    ensures
        d.run(w + s) == d.run_from(d.run(w), s),
    decreases s.len(),
{
    if s.len() == 0 {
        assert(w + s =~= w);
    } else {
        let w1 = w.push(s[0]);
        let s1 = s.drop_first();
        assert(w + s =~= w1 + s1);
        d.lemma_run_push(w, s[0]);
        lemma_run_then(d, w1, s1);
    }
}

/// In an automaton whose states are pairwise distinguishable and which
/// accepts what `nfa` accepts, strings that lead `nfa` to the same states
/// lead it to the same state.
proof fn lemma_minimal_follows_run(nfa: Nfa, m: Dfa, w1: Seq<char>, w2: Seq<char>)
    requires
        m.wf(),
        forall|w: Seq<char>| #[trigger] m.accepts(w) == nfa.accepts(w),
        forall|p: usize, q: usize| p < m.states@.len() && q < m.states@.len() && p != q ==> #[trigger] m.distinguishable(p, q),
        nfa.run(w1) == nfa.run(w2),
    ensures
        m.run(w1) == m.run(w2),
{
    let p = m.run(w1);
    let q = m.run(w2);
    m.lemma_run_bound(w1);
    m.lemma_run_bound(w2);
    if p != q {
        assert(m.distinguishable(p, q));
        let s = choose|s: Seq<char>| #[trigger] m.accepts_from(p, s) != m.accepts_from(q, s);
        lemma_run_then(m, w1, s);
        lemma_run_then(m, w2, s);
        lemma_same_run_extends(nfa, w1, w2, s);
        assert(m.accepts(w1 + s) == nfa.accepts(w1 + s));
        assert(m.accepts(w2 + s) == nfa.accepts(w2 + s));
    }
}

/// The engine that determinizes and minimizes both automata, settles
/// equivalence by comparing canonical forms when it can, and otherwise
/// searches the product of the minimal automata.
#[derive(Clone, Copy, Debug)]
pub struct MinimizedBackend;

impl Default for MinimizedBackend {
    fn default() -> (r: Self) {
        MinimizedBackend
    }
}

impl RelationBackend for MinimizedBackend {
    fn name(&self) -> (r: &'static str)
        ensures
            r@ == "minimized_dfa"@,
    {
        "minimized_dfa"
    }

    fn version(&self) -> (r: &'static str)
        ensures
            r@ == TOOL_VERSION@,
    {
        TOOL_VERSION
    }

    fn analyze_binary(&self, query: Query, left: &Nfa, right: &Nfa, config: &Config) -> (r: BackendResult)
        ensures
            crate::laws::sound_outcome(query, *left, *right, r),
            (r.status == BackendStatus::Found) == (r.witness is Some),
            r.status == BackendStatus::Found ==> (r.witness matches Some(w) && r.relation matches Some(rel) && relation_of(
                query,
                left.accepts(w@),
                right.accepts(w@),
            ) == Some(rel@)),
            r.status == BackendStatus::Exhausted ==> forall|w: Seq<char>|
                #[trigger] relation_of(query, left.accepts(w), right.accepts(w)) is None,
            r.status == BackendStatus::Found ==> (r.witness matches Some(w) && forall|u: Seq<char>|
                u.len() < w@.len() ==> #[trigger] relation_of(query, left.accepts(u), right.accepts(u)) is None),
            r.status == BackendStatus::StateLimit ==> exists|ws: Seq<Seq<char>>|
                ws.len() >= config.max_product_states && forall|i: int, j: int|
                    0 <= i < j < ws.len() ==> left.run(#[trigger] ws[i]) != left.run(#[trigger] ws[j]) || right.run(ws[i])
                        != right.run(ws[j]),
    {
        let started = instant_now();
        let clock = WallClock::since(started);
        let deadline_ms = config.timeout_ms as u128;
        let left_dfa = match determinize_within(left, config.max_product_states, deadline_ms, &clock) {
            Ok(dfa) => dfa,
            Err(status) => {
                proof {
                    if status == BackendStatus::StateLimit {
                        let ws = choose|ws: Seq<Seq<char>>|
                            ws.len() >= config.max_product_states && forall|i: int, j: int|
                                0 <= i < j < ws.len() ==> left.run(#[trigger] ws[i]) != left.run(#[trigger] ws[j]);
                        assert(forall|i: int, j: int|
                            0 <= i < j < ws.len() ==> left.run(#[trigger] ws[i]) != left.run(#[trigger] ws[j]) || right.run(ws[i])
                                != right.run(ws[j]));
                    }
                }
                return timed_out(status, 0, 0, &started);
            },
        };
        let right_dfa = match determinize_within(right, config.max_product_states, deadline_ms, &clock) {
            Ok(dfa) => dfa,
            Err(status) => {
                proof {
                    if status == BackendStatus::StateLimit {
                        let ws = choose|ws: Seq<Seq<char>>|
                            ws.len() >= config.max_product_states && forall|i: int, j: int|
                                0 <= i < j < ws.len() ==> right.run(#[trigger] ws[i]) != right.run(#[trigger] ws[j]);
                        assert(forall|i: int, j: int|
                            0 <= i < j < ws.len() ==> left.run(#[trigger] ws[i]) != left.run(#[trigger] ws[j]) || right.run(ws[i])
                                != right.run(ws[j]));
                    }
                }
                return timed_out(status, left_dfa.states.len(), 0, &started);
            },
        };
        let left_min = match minimize_within(&left_dfa, deadline_ms, &clock) {
            Ok(dfa) => dfa,
            Err(status) => {
                return timed_out(status, left_dfa.states.len().saturating_add(right_dfa.states.len()), 0, &started);
            },
        };
        let right_min = match minimize_within(&right_dfa, deadline_ms, &clock) {
            Ok(dfa) => dfa,
            Err(status) => {
                return timed_out(status, left_min.states.len().saturating_add(right_dfa.states.len()), 0, &started);
            },
        };
        if query == Query::Equivalent && dfas_isomorphic(&left_min, &right_min) {
            proof {
                assert forall|w: Seq<char>| #[trigger] relation_of(query, left.accepts(w), right.accepts(w)) is None by {
                    assert(left_min.accepts(w) == left_dfa.accepts(w));
                    assert(right_min.accepts(w) == right_dfa.accepts(w));
                    assert(left_min.accepts(w) == right_min.accepts(w));
                }
            }
            return BackendResult {
                status: BackendStatus::Exhausted,
                witness: None,
                relation: None,
                visited_states: left_min.states.len().saturating_add(right_min.states.len()),
                generated_transitions: 0,
                analysis_ms: elapsed_ms(&started),
                witness_extraction_ms: 0,
            };
        }
        let result = dfa_product_search(query, &left_min, &right_min, config, started, &clock);
        proof {
            if result.status == BackendStatus::StateLimit {
                let ws = choose|ws: Seq<Seq<char>>|
                    ws.len() >= config.max_product_states && forall|i: int, j: int|
                        0 <= i < j < ws.len() ==> left_min.run(#[trigger] ws[i]) != left_min.run(#[trigger] ws[j])
                            || right_min.run(ws[i]) != right_min.run(ws[j]);
                assert forall|w: Seq<char>| #[trigger] left_min.accepts(w) == left.accepts(w) by {
                    assert(left_min.accepts(w) == left_dfa.accepts(w));
                }
                assert forall|w: Seq<char>| #[trigger] right_min.accepts(w) == right.accepts(w) by {
                    assert(right_min.accepts(w) == right_dfa.accepts(w));
                }
                assert forall|i: int, j: int| 0 <= i < j < ws.len() implies left.run(#[trigger] ws[i]) != left.run(
                    #[trigger] ws[j],
                ) || right.run(ws[i]) != right.run(ws[j]) by {
                    if left.run(ws[i]) == left.run(ws[j]) && right.run(ws[i]) == right.run(ws[j]) {
                        lemma_minimal_follows_run(*left, left_min, ws[i], ws[j]);
                        lemma_minimal_follows_run(*right, right_min, ws[i], ws[j]);
                    }
                }
            }
            if result.status == BackendStatus::Found {
                let w = result.witness->0;
                assert(left_min.accepts(w@) == left_dfa.accepts(w@));
                assert(right_min.accepts(w@) == right_dfa.accepts(w@));
                assert forall|u: Seq<char>| u.len() < w@.len() implies #[trigger] relation_of(
                    query,
                    left.accepts(u),
                    right.accepts(u),
                ) is None by {
                    assert(left_min.accepts(u) == left_dfa.accepts(u));
                    assert(right_min.accepts(u) == right_dfa.accepts(u));
                    assert(relation_of(query, left_min.accepts(u), right_min.accepts(u)) is None);
                }
            }
            if result.status == BackendStatus::Exhausted {
                assert forall|w: Seq<char>| #[trigger] relation_of(query, left.accepts(w), right.accepts(w)) is None by {
                    assert(left_min.accepts(w) == left_dfa.accepts(w));
                    assert(right_min.accepts(w) == right_dfa.accepts(w));
                    assert(relation_of(query, left_min.accepts(w), right_min.accepts(w)) is None);
                }
            }
        }
        result
    }

    fn analyze_empty(&self, nfa: &Nfa, config: &Config) -> (r: BackendResult)
        ensures
            (r.status == BackendStatus::Found) == (r.witness is Some),
            r.status == BackendStatus::Found ==> (r.witness matches Some(w) && nfa.accepts(w@)),
            r.status == BackendStatus::Exhausted ==> forall|w: Seq<char>| !#[trigger] nfa.accepts(w),
            r.status == BackendStatus::Found ==> (r.witness matches Some(w) && forall|u: Seq<char>|
                u.len() < w@.len() ==> !#[trigger] nfa.accepts(u)),
            r.status == BackendStatus::StateLimit ==> exists|ws: Seq<Seq<char>>|
                ws.len() >= config.max_product_states && forall|i: int, j: int|
                    0 <= i < j < ws.len() ==> nfa.run(#[trigger] ws[i]) != nfa.run(#[trigger] ws[j]),
    {
        let started = instant_now();
        let clock = WallClock::since(started);
        let deadline_ms = config.timeout_ms as u128;
        match determinize_within(nfa, config.max_product_states, deadline_ms, &clock) {
            Ok(dfa) => {
                let dfa_states = dfa.states.len();
                match minimize_within(&dfa, deadline_ms, &clock) {
                    Ok(minimized) => {
                        let result = dfa_search_single(&minimized, config, started, &clock);
                        proof {
                            if result.status == BackendStatus::StateLimit {
                                let ws = choose|ws: Seq<Seq<char>>|
                                    ws.len() >= config.max_product_states && forall|i: int, j: int|
                                        0 <= i < j < ws.len() ==> minimized.run(#[trigger] ws[i]) != minimized.run(#[trigger] ws[j]);
                                assert forall|w: Seq<char>| #[trigger] minimized.accepts(w) == nfa.accepts(w) by {
                                    assert(minimized.accepts(w) == dfa.accepts(w));
                                }
                                assert forall|i: int, j: int| 0 <= i < j < ws.len() implies nfa.run(#[trigger] ws[i]) != nfa.run(
                                    #[trigger] ws[j],
                                ) by {
                                    if nfa.run(ws[i]) == nfa.run(ws[j]) {
                                        lemma_minimal_follows_run(*nfa, minimized, ws[i], ws[j]);
                                    }
                                }
                            }
                            if result.status == BackendStatus::Found {
                                let w = result.witness->0;
                                assert(minimized.accepts(w@) == dfa.accepts(w@));
                                assert forall|u: Seq<char>| u.len() < w@.len() implies !#[trigger] nfa.accepts(u) by {
                                    assert(minimized.accepts(u) == dfa.accepts(u));
                                    assert(!minimized.accepts(u));
                                }
                            }
                            if result.status == BackendStatus::Exhausted {
                                assert forall|w: Seq<char>| !#[trigger] nfa.accepts(w) by {
                                    assert(minimized.accepts(w) == dfa.accepts(w));
                                    assert(!minimized.accepts(w));
                                }
                            }
                        }
                        result
                    },
                    Err(status) => timed_out(status, dfa_states, 0, &started),
                }
            },
            Err(status) => timed_out(status, 0, 0, &started),
        }
    }
}

} // verus!
