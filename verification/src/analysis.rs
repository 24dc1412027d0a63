//! Deciding relations between the languages of two patterns, or the
//! emptiness of one, by a breadth-first search over automaton subsets.
use crate::charset::partition::{any_has, same_membership, sets_scalar, source_sets};
use crate::charset::{representative_chars, CharSet};
use crate::config::{Alphabet, Config};
use crate::nfa::{deref_sets, is_edge_set, lemma_subset_sets, sorted_ids, subset_sets, Nfa};
use crate::text::char_text;
use crate::parser::{parse, plain_text, FrontendError, FrontendErrorKind};
use crate::laws::{pattern_accepted, pattern_matches, pattern_relation_holds};
use crate::ast::{expr_wf, lemma_wf_bounds_ordered, matches_expr, Expr};
use crate::report::{
    relation, BackendInfo, Diagnostic, Report, Semantics, Statistics, Timings, Verdict, Witness, phase_sum,
    SCHEMA_VERSION, TOOL_VERSION,
};
use crate::text::{debug_str, display_u64, display_usize};
use std::time::{Duration, Instant};
use vstd::prelude::*;

verus! {

#[derive(Clone, Copy, Debug, Eq, PartialEq, Structural)]
pub enum Query {
    Empty,
    Overlap,
    Includes,
    Equivalent,
}

/// How a string relates to the two languages of `query`, when that settles
/// the query: in both for overlap, in the left only for inclusion, in just
/// one of them for equivalence. `None` when the string settles nothing.
pub open spec fn relation_of(query: Query, l: bool, r: bool) -> Option<Seq<char>> {
    match query {
        Query::Overlap => if l && r {
            Some(relation::IN_BOTH@)
        } else {
            None
        },
        Query::Includes => if l && !r {
            Some(relation::LEFT_ONLY@)
        } else {
            None
        },
        Query::Equivalent => if l && !r {
            Some(relation::LEFT_ONLY@)
        } else if !l && r {
            Some(relation::RIGHT_ONLY@)
        } else {
            None
        },
        Query::Empty => None,
    }
}

/// The relation name for a string accepted (or not) by each side.
pub fn classify_relation(query: Query, left_accepts: bool, right_accepts: bool) -> (r: Option<&'static str>)
    ensures
        match r {
            Some(s) => relation_of(query, left_accepts, right_accepts) == Some(s@),
            None => relation_of(query, left_accepts, right_accepts) is None,
        },
{
    match query {
        Query::Overlap => if left_accepts && right_accepts {
            Some(relation::IN_BOTH)
        } else {
            None
        },
        Query::Includes => if left_accepts && !right_accepts {
            Some(relation::LEFT_ONLY)
        } else {
            None
        },
        Query::Equivalent => if left_accepts && !right_accepts {
            Some(relation::LEFT_ONLY)
        } else if !left_accepts && right_accepts {
            Some(relation::RIGHT_ONLY)
        } else {
            None
        },
        Query::Empty => None,
    }
}

/// How a search ended.
#[derive(Clone, Copy, Debug, Eq, PartialEq, Structural)]
pub enum BackendStatus {
    Found,
    Exhausted,
    StateLimit,
    Timeout,
}

/// What an analysis engine hands back for one query.
#[derive(Clone, Debug)]
pub struct BackendResult {
    pub status: BackendStatus,
    pub witness: Option<String>,
    pub relation: Option<String>,
    pub visited_states: usize,
    pub generated_transitions: usize,
    pub analysis_ms: u128,
    pub witness_extraction_ms: u128,
}

#[verifier::external_type_specification]
#[verifier::external_body]
pub struct ExInstant(std::time::Instant);

/// `Instant::now`: the current time. Nothing is stated of it.
#[verifier::external_body]
pub(crate) fn instant_now() -> Instant {
    Instant::now()
}

/// `Instant::elapsed`: the time since `started`. Nothing is stated of it.
#[verifier::external_body]
fn instant_elapsed(started: &Instant) -> Duration {
    started.elapsed()
}

/// `Duration::as_millis`: the whole milliseconds of `d`. Nothing is stated
/// of the number, as `Duration` is held opaque here.
#[verifier::external_body]
pub(crate) fn duration_millis(d: &Duration) -> u128 {
    d.as_millis()
}

/// Whole milliseconds since `started`.
pub(crate) fn elapsed_ms(started: &Instant) -> u128 {
    let elapsed = instant_elapsed(started);
    duration_millis(&elapsed)
}

/// A source of elapsed-time readings in milliseconds, which a search
/// consults to stop at its timeout.
pub trait Clock {
    /// `t` is a reading this clock may give.
    spec fn may_read(&self, t: u128) -> bool;

    /// The milliseconds elapsed so far.
    fn read_ms(&self) -> (t: u128)
        ensures
            self.may_read(t),
    ;
}

/// The wall clock: milliseconds since the instant it was started.
pub struct WallClock {
    started: Instant,
}

impl WallClock {
    /// A clock started now.
    pub fn start() -> (r: Self) {
        WallClock { started: instant_now() }
    }

    /// A clock started at `started`.
    pub fn since(started: Instant) -> (r: Self) {
        WallClock { started }
    }
}

impl Clock for WallClock {
    /// Any reading is possible: what the wall clock shows is not known.
    open spec fn may_read(&self, t: u128) -> bool {
        true
    }

    fn read_ms(&self) -> (t: u128) {
        elapsed_ms(&self.started)
    }
}

/// The subsets of both automata that a string leads to.
struct ProductKey {
    left: Vec<usize>,
    right: Vec<usize>,
}

/// A node of the search: its key, and the node and character it was
/// reached from.
pub(crate) struct SearchNode<K> {
    pub(crate) key: K,
    pub(crate) parent: Option<(usize, char)>,
}

/// Every node was reached from an earlier one.
pub(crate) open spec fn parents_ok<K>(nodes: Seq<SearchNode<K>>) -> bool {
    forall|j: int|
        0 <= j < nodes.len() ==> match #[trigger] nodes[j].parent {
            Some(edge) => edge.0 < j,
            None => true,
        }
}

/// The string spelled by the parent chain of node `i`.
pub(crate) open spec fn path_word<K>(nodes: Seq<SearchNode<K>>, i: int) -> Seq<char>
    decreases i,
{
    if 0 <= i < nodes.len() {
        match nodes[i].parent {
            Some(edge) => if edge.0 < i {
                path_word(nodes, edge.0 as int).push(edge.1)
            } else {
                Seq::empty()
            },
            None => Seq::empty(),
        }
    } else {
        Seq::empty()
    }
}

/// The string of node `i` is no longer than `i`: each step down a parent
/// chain goes to a lower index.
pub(crate) proof fn lemma_path_word_len<K>(nodes: Seq<SearchNode<K>>, i: int)
    requires
        0 <= i,
    ensures
        path_word(nodes, i).len() <= i,
    decreases i,
{
    if 0 <= i < nodes.len() {
        if let Some(edge) = nodes[i].parent {
            if edge.0 < i {
                lemma_path_word_len(nodes, edge.0 as int);
            }
        }
    }
}

pub(crate) proof fn lemma_path_word_push<K>(nodes: Seq<SearchNode<K>>, x: SearchNode<K>, i: int)
    requires
        0 <= i < nodes.len(),
    ensures
        path_word(nodes.push(x), i) == path_word(nodes, i),
    decreases i,
{
    let longer = nodes.push(x);
    assert(longer[i] == nodes[i]);
    match nodes[i].parent {
        Some(edge) => if edge.0 < i {
            lemma_path_word_push(nodes, x, edge.0 as int);
        },
        None => {},
    }
}

/// `key` is the sorted subset of `nfa` reached on `w`.
spec fn subset_ok(nfa: Nfa, key: Seq<usize>, w: Seq<char>) -> bool {
    &&& sorted_ids(key)
    &&& forall|i: int| 0 <= i < key.len() ==> #[trigger] key[i] < nfa.states@.len()
    &&& key.to_set() == nfa.run(w)
}

/// Reading `c` after `w` is one subset step.
pub(crate) proof fn lemma_run_push(nfa: Nfa, w: Seq<char>, c: char)
    ensures
        nfa.run(w.push(c)) == nfa.step_set(nfa.run(w), c),
{
    assert(w.push(c).drop_last() =~= w);
    assert(w.push(c).last() == c);
}

/// The string that leads to node `node_id`.
pub(crate) fn reconstruct<K>(nodes: &Vec<SearchNode<K>>, node_id: usize) -> (r: String)
    requires
        node_id < nodes@.len(),
        parents_ok(nodes@),
    ensures
        r@ == path_word(nodes@, node_id as int),
{
    let mut reversed: Vec<char> = Vec::new();
    let mut id = node_id;
    loop
        invariant
            id < nodes@.len(),
            parents_ok(nodes@),
            path_word(nodes@, node_id as int) == path_word(nodes@, id as int) + reversed@.reverse(),
        ensures
            id < nodes@.len(),
            path_word(nodes@, node_id as int) == reversed@.reverse(),
        decreases id,
    {
        match nodes[id].parent {
            Some(edge) => {
                let (parent, ch) = edge;
                proof {
                    assert(parent < id);
                    assert(path_word(nodes@, id as int) == path_word(nodes@, parent as int).push(ch));
                    assert(reversed@.push(ch).reverse() =~= seq![ch] + reversed@.reverse());
                    assert(path_word(nodes@, parent as int).push(ch) + reversed@.reverse() =~= path_word(
                        nodes@,
                        parent as int,
                    ) + reversed@.push(ch).reverse());
                }
                reversed.push(ch);
                id = parent;
            },
            None => {
                proof {
                    assert(path_word(nodes@, id as int) =~= Seq::<char>::empty());
                    assert(Seq::<char>::empty() + reversed@.reverse() =~= reversed@.reverse());
                }
                break ;
            },
        }
    }
    let mut out = String::new();
    let n = reversed.len();
    let mut j: usize = 0;
    while j < n
        invariant
            n == reversed@.len(),
            j <= n,
            out@ == reversed@.reverse().subrange(0, j as int),
        decreases n - j,
    {
        let ch = reversed[n - 1 - j];
        let piece = char_text(ch);
        proof {
            assert(reversed@.reverse()[j as int] == ch);
            assert(reversed@.reverse().subrange(0, j + 1) =~= reversed@.reverse().subrange(0, j as int).push(ch));
        }
        out.append(piece.as_str());
        proof {
            assert(out@ =~= reversed@.reverse().subrange(0, j + 1));
        }
        j += 1;
    }
    proof {
        assert(reversed@.reverse().subrange(0, n as int) =~= reversed@.reverse());
    }
    out
}

/// Number of hash buckets of the visited table.
pub(crate) const BUCKETS: usize = 4096;

/// Every bucket entry names a node.
pub(crate) open spec fn buckets_ok(buckets: Seq<Vec<usize>>, n: int) -> bool {
    &&& buckets.len() == BUCKETS
    &&& forall|b: int, e: int| 0 <= b < buckets.len() && 0 <= e < buckets[b]@.len() ==> #[trigger] buckets[b]@[e] < n
}

pub(crate) fn empty_buckets() -> (r: Vec<Vec<usize>>)
    ensures
        buckets_ok(r@, 0),
{
    let mut out: Vec<Vec<usize>> = Vec::new();
    let mut k: usize = 0;
    while k < BUCKETS
        invariant
            k <= BUCKETS,
            out@.len() == k,
            forall|b: int| 0 <= b < k ==> (#[trigger] out@[b])@.len() == 0,
        decreases BUCKETS - k,
    {
        out.push(Vec::new());
        k += 1;
    }
    out
}

/// Record node `id` in bucket `slot`.
pub(crate) fn bucket_add(buckets: &mut Vec<Vec<usize>>, slot: usize, id: usize)
    requires
        slot < BUCKETS,
        buckets_ok(old(buckets)@, id + 1),
    ensures
        buckets_ok(final(buckets)@, id + 1),
        final(buckets)@.len() == old(buckets)@.len(),
        final(buckets)@[slot as int]@ == old(buckets)@[slot as int]@.push(id),
        forall|b: int| 0 <= b < old(buckets)@.len() && b != slot ==> #[trigger] final(buckets)@[b] == old(buckets)@[b],
{
    let mut bucket: Vec<usize> = Vec::new();
    let mut e: usize = 0;
    while e < buckets[slot].len()
        invariant
            slot < buckets@.len(),
            buckets_ok(buckets@, id + 1),
            buckets@ == old(buckets)@,
            e <= buckets@[slot as int]@.len(),
            bucket@ == buckets@[slot as int]@.take(e as int),
            forall|x: int| 0 <= x < bucket@.len() ==> #[trigger] bucket@[x] < id + 1,
        decreases buckets@[slot as int]@.len() - e,
    {
        bucket.push(buckets[slot][e]);
        e += 1;
        proof {
            assert(bucket@ =~= buckets@[slot as int]@.take(e as int));
        }
    }
    proof {
        assert(bucket@ =~= old(buckets)@[slot as int]@);
    }
    bucket.push(id);
    buckets.set(slot, bucket);
}

/// The bucket that hashing `ids` one after another into `h` gives: each
/// id moves the bucket to `(bucket * 31 + id % BUCKETS) % BUCKETS`.
pub(crate) open spec fn mix_of(h: int, ids: Seq<usize>) -> int
    decreases ids.len(),
{
    if ids.len() == 0 {
        h
    } else {
        (mix_of(h, ids.drop_last()) * 31 + (ids.last() % BUCKETS) as int) % (BUCKETS as int)
    }
}

/// The bucket of a subset key: its length, then its ids.
pub(crate) open spec fn subset_slot_of(key: Seq<usize>) -> int {
    mix_of(key.len() as int % (BUCKETS as int), key)
}

/// A bucket for a list of state ids.
fn mix_ids(h: usize, ids: &Vec<usize>) -> (r: usize)
    requires
        h < BUCKETS,
    ensures
        r < BUCKETS,
        r == mix_of(h as int, ids@),
{
    let mut acc = h;
    let mut i: usize = 0;
    while i < ids.len()
        invariant
            acc < BUCKETS,
            i <= ids@.len(),
            acc == mix_of(h as int, ids@.take(i as int)),
        decreases ids@.len() - i,
    {
        proof {
            let next = ids@.take(i + 1);
            assert(next.drop_last() =~= ids@.take(i as int));
            assert(next.last() == ids@[i as int]);
        }
        acc = (acc * 31 + ids[i] % BUCKETS) % BUCKETS;
        i += 1;
    }
    proof {
        assert(ids@.take(i as int) =~= ids@);
    }
    acc
}

/// The two lists hold the same ids in the same order.
pub(crate) fn same_ids(a: &Vec<usize>, b: &Vec<usize>) -> (r: bool)
    ensures
        r == (a@ == b@),
{
    if a.len() != b.len() {
        return false;
    }
    let mut i: usize = 0;
    while i < a.len()
        invariant
            a@.len() == b@.len(),
            i <= a@.len(),
            forall|k: int| 0 <= k < i ==> a@[k] == b@[k],
        decreases a@.len() - i,
    {
        if a[i] != b[i] {
            return false;
        }
        i += 1;
    }
    proof {
        assert(a@ =~= b@);
    }
    true
}


/// Both subsets of the key are those reached on `w`.
spec fn pair_ok(left: Nfa, right: Nfa, key: ProductKey, w: Seq<char>) -> bool {
    subset_ok(left, key.left@, w) && subset_ok(right, key.right@, w)
}

/// Every node's key is the pair of subsets reached on its string.
spec fn product_nodes_ok(left: Nfa, right: Nfa, nodes: Seq<SearchNode<ProductKey>>) -> bool {
    forall|j: int| 0 <= j < nodes.len() ==> #[trigger] pair_ok(left, right, nodes[j].key, path_word(nodes, j))
}

/// Some node holds the pair of subsets `(l, r)`.
spec fn has_pair(nodes: Seq<SearchNode<ProductKey>>, l: Set<usize>, r: Set<usize>) -> bool {
    exists|j: int| 0 <= j < nodes.len() && (#[trigger] nodes[j]).key.left@.to_set() == l && nodes[j].key.right@.to_set() == r
}

/// The edge classes leaving both subsets of `key`.
spec fn pair_sets(left: Nfa, right: Nfa, key: ProductKey) -> Seq<CharSet> {
    subset_sets(left.states@, key.left@) + subset_sets(right.states@, key.right@)
}

/// Some node no deeper than `d` holds the pair of subsets `(l, r)`.
spec fn has_pair_within(nodes: Seq<SearchNode<ProductKey>>, l: Set<usize>, r: Set<usize>, d: nat) -> bool {
    exists|j: int|
        0 <= j < nodes.len() && (#[trigger] nodes[j]).key.left@.to_set() == l && nodes[j].key.right@.to_set() == r
            && path_word(nodes, j).len() <= d
}

/// Every character some edge out of node `i` carries leads to a node at
/// most one deeper.
spec fn pair_closed(left: Nfa, right: Nfa, nodes: Seq<SearchNode<ProductKey>>, i: int) -> bool {
    forall|c: char|
        #[trigger] any_has(pair_sets(left, right, nodes[i].key), c as int) ==> has_pair_within(
            nodes,
            left.step_set(nodes[i].key.left@.to_set(), c),
            right.step_set(nodes[i].key.right@.to_set(), c),
            path_word(nodes, i).len() + 1,
        )
}

/// Nodes are stored in order of depth.
pub(crate) open spec fn depth_sorted<K>(nodes: Seq<SearchNode<K>>) -> bool {
    forall|i: int, j: int| 0 <= i <= j < nodes.len() ==> #[trigger] path_word(nodes, i).len() <= #[trigger] path_word(nodes, j).len()
}

proof fn lemma_has_pair_within_push(
    nodes: Seq<SearchNode<ProductKey>>,
    x: SearchNode<ProductKey>,
    l: Set<usize>,
    r: Set<usize>,
    d: nat,
)
    requires
        has_pair_within(nodes, l, r, d),
    ensures
        has_pair_within(nodes.push(x), l, r, d),
{
    let j = choose|j: int|
        0 <= j < nodes.len() && (#[trigger] nodes[j]).key.left@.to_set() == l && nodes[j].key.right@.to_set() == r
            && path_word(nodes, j).len() <= d;
    assert(nodes.push(x)[j] == nodes[j]);
    lemma_path_word_push(nodes, x, j);
}

proof fn lemma_within_has_pair(nodes: Seq<SearchNode<ProductKey>>, l: Set<usize>, r: Set<usize>, d: nat)
    requires
        has_pair_within(nodes, l, r, d),
    ensures
        has_pair(nodes, l, r),
{
    let j = choose|j: int|
        0 <= j < nodes.len() && (#[trigger] nodes[j]).key.left@.to_set() == l && nodes[j].key.right@.to_set() == r
            && path_word(nodes, j).len() <= d;
    assert(nodes[j].key.left@.to_set() == l && nodes[j].key.right@.to_set() == r);
}

/// Node `i` settles nothing for `query`.
spec fn pair_quiet(query: Query, left: Nfa, right: Nfa, key: ProductKey) -> bool {
    relation_of(query, key.left@.to_set().contains(left.accept), key.right@.to_set().contains(right.accept)) is None
}

proof fn lemma_pair_closed_push(left: Nfa, right: Nfa, nodes: Seq<SearchNode<ProductKey>>, x: SearchNode<ProductKey>, i: int)
    requires
        0 <= i < nodes.len(),
        pair_closed(left, right, nodes, i),
    ensures
        pair_closed(left, right, nodes.push(x), i),
{
    let longer = nodes.push(x);
    assert(longer[i] == nodes[i]);
    lemma_path_word_push(nodes, x, i);
    assert forall|c: char| #[trigger] any_has(pair_sets(left, right, longer[i].key), c as int) implies has_pair_within(
        longer,
        left.step_set(longer[i].key.left@.to_set(), c),
        right.step_set(longer[i].key.right@.to_set(), c),
        path_word(longer, i).len() + 1,
    ) by {
        assert(any_has(pair_sets(left, right, nodes[i].key), c as int));
        lemma_has_pair_within_push(
            nodes,
            x,
            left.step_set(nodes[i].key.left@.to_set(), c),
            right.step_set(nodes[i].key.right@.to_set(), c),
            path_word(nodes, i).len() + 1,
        );
    }
}

/// The edge classes out of a subset hold only scalar values.
pub(crate) proof fn lemma_subset_sets_scalar(nfa: Nfa, ids: Seq<usize>)
    requires
        nfa.wf(),
        nfa.scalar_edges(),
        forall|i: int| 0 <= i < ids.len() ==> #[trigger] ids[i] < nfa.states@.len(),
    ensures
        sets_scalar(subset_sets(nfa.states@, ids)),
{
    lemma_subset_sets(nfa.states@, ids);
    let all = subset_sets(nfa.states@, ids);
    assert forall|k: int, v: int| 0 <= k < all.len() && #[trigger] all[k].has(v) implies crate::charset::is_scalar(v) by {
        assert(is_edge_set(nfa.states@, ids, all[k]));
        let (j, t) = choose|j: int, t: int|
            0 <= j < ids.len() && 0 <= t < nfa.states@[ids[j] as int].transitions@.len() && #[trigger] nfa.states@[ids[j] as int].transitions@[t].set
                == all[k];
        assert(nfa.states@[ids[j] as int].transitions@[t].set.has(v));
    }
}

/// Two characters that every edge class out of `ids` treats alike reach the
/// same states.
pub(crate) proof fn lemma_moves_alike(nfa: Nfa, ids: Seq<usize>, c: char, d: char)
    requires
        nfa.wf(),
        forall|i: int| 0 <= i < ids.len() ==> #[trigger] ids[i] < nfa.states@.len(),
        same_membership(subset_sets(nfa.states@, ids), c as int, d as int),
    ensures
        nfa.step_set(ids.to_set(), c) == nfa.step_set(ids.to_set(), d),
{
    lemma_subset_sets(nfa.states@, ids);
    let all = subset_sets(nfa.states@, ids);
    let s = ids.to_set();
    assert forall|x: usize| nfa.moves(s, c).contains(x) == nfa.moves(s, d).contains(x) by {
        if nfa.moves(s, c).contains(x) {
            let (q, k) = choose|q: usize, k: int|
                s.contains(q) && q < nfa.states@.len() && 0 <= k < nfa.states@[q as int].transitions@.len()
                    && #[trigger] nfa.states@[q as int].transitions@[k].target == x && nfa.states@[q as int].transitions@[k].set.has(
                    c as int,
                );
            let j = choose|j: int| 0 <= j < ids.len() && ids[j] == q;
            let set = nfa.states@[ids[j] as int].transitions@[k].set;
            assert(all.contains(set));
            let m = choose|m: int| 0 <= m < all.len() && all[m] == set;
            assert(all[m].has(c as int) == all[m].has(d as int));
        }
        if nfa.moves(s, d).contains(x) {
            let (q, k) = choose|q: usize, k: int|
                s.contains(q) && q < nfa.states@.len() && 0 <= k < nfa.states@[q as int].transitions@.len()
                    && #[trigger] nfa.states@[q as int].transitions@[k].target == x && nfa.states@[q as int].transitions@[k].set.has(
                    d as int,
                );
            let j = choose|j: int| 0 <= j < ids.len() && ids[j] == q;
            let set = nfa.states@[ids[j] as int].transitions@[k].set;
            assert(all.contains(set));
            let m = choose|m: int| 0 <= m < all.len() && all[m] == set;
            assert(all[m].has(c as int) == all[m].has(d as int));
        }
    }
    assert(nfa.moves(s, c) =~= nfa.moves(s, d));
}

/// A character that no edge class out of `ids` carries leads nowhere.
pub(crate) proof fn lemma_moves_none(nfa: Nfa, ids: Seq<usize>, c: char)
    requires
        nfa.wf(),
        forall|i: int| 0 <= i < ids.len() ==> #[trigger] ids[i] < nfa.states@.len(),
        !any_has(subset_sets(nfa.states@, ids), c as int),
    ensures
        nfa.step_set(ids.to_set(), c) == Set::<usize>::empty(),
{
    lemma_subset_sets(nfa.states@, ids);
    let all = subset_sets(nfa.states@, ids);
    let s = ids.to_set();
    assert forall|x: usize| !nfa.moves(s, c).contains(x) by {
        if nfa.moves(s, c).contains(x) {
            let (q, k) = choose|q: usize, k: int|
                s.contains(q) && q < nfa.states@.len() && 0 <= k < nfa.states@[q as int].transitions@.len()
                    && #[trigger] nfa.states@[q as int].transitions@[k].target == x && nfa.states@[q as int].transitions@[k].set.has(
                    c as int,
                );
            let j = choose|j: int| 0 <= j < ids.len() && ids[j] == q;
            let set = nfa.states@[ids[j] as int].transitions@[k].set;
            assert(all.contains(set));
            let m = choose|m: int| 0 <= m < all.len() && all[m] == set;
            assert(all[m].has(c as int));
        }
    }
    assert(nfa.moves(s, c) =~= Set::<usize>::empty());
    nfa.lemma_step_from_empty(c);
    assert(nfa.moves(Set::<usize>::empty(), c) =~= Set::<usize>::empty());
}

/// Membership agreed on the concatenated classes is agreed on each part.
proof fn lemma_same_membership_split(a: Seq<CharSet>, b: Seq<CharSet>, c: int, d: int)
    requires
        same_membership(a + b, c, d),
    ensures
        same_membership(a, c, d),
        same_membership(b, c, d),
{
    assert forall|k: int| 0 <= k < a.len() implies (#[trigger] a[k].has(c) <==> a[k].has(d)) by {
        assert((a + b)[k] == a[k]);
    }
    assert forall|k: int| 0 <= k < b.len() implies (#[trigger] b[k].has(c) <==> b[k].has(d)) by {
        assert((a + b)[a.len() + k] == b[k]);
    }
}

/// Not touched by the concatenation means touched by neither part.
proof fn lemma_any_has_split(a: Seq<CharSet>, b: Seq<CharSet>, c: int)
    requires
        !any_has(a + b, c),
    ensures
        !any_has(a, c),
        !any_has(b, c),
{
    if any_has(a, c) {
        let k = choose|k: int| 0 <= k < a.len() && #[trigger] a[k].has(c);
        assert((a + b)[k] == a[k]);
    }
    if any_has(b, c) {
        let k = choose|k: int| 0 <= k < b.len() && #[trigger] b[k].has(c);
        assert((a + b)[a.len() + k] == b[k]);
    }
}

/// Once every node is closed and none settles the query, no string does:
/// every string leads to a node's pair of subsets or to the empty pair.
proof fn lemma_product_reach(left: Nfa, right: Nfa, nodes: Seq<SearchNode<ProductKey>>, w: Seq<char>)
    requires
        left.wf(),
        right.wf(),
        has_pair(nodes, left.run(Seq::empty()), right.run(Seq::empty())),
        forall|i: int| 0 <= i < nodes.len() ==> #[trigger] pair_closed(left, right, nodes, i),
        forall|i: int|
            0 <= i < nodes.len() ==> forall|k: int| 0 <= k < (#[trigger] nodes[i]).key.left@.len() ==> nodes[i].key.left@[k] < left.states@.len(),
        forall|i: int|
            0 <= i < nodes.len() ==> forall|k: int| 0 <= k < (#[trigger] nodes[i]).key.right@.len() ==> nodes[i].key.right@[k] < right.states@.len(),
    ensures
        has_pair(nodes, left.run(w), right.run(w)) || (left.run(w) == Set::<usize>::empty() && right.run(w)
            == Set::<usize>::empty()),
    decreases w.len(),
{
    if w.len() > 0 {
        let prefix = w.drop_last();
        let c = w.last();
        lemma_product_reach(left, right, nodes, prefix);
        lemma_run_push(left, prefix, c);
        lemma_run_push(right, prefix, c);
        assert(prefix.push(c) =~= w);
        if has_pair(nodes, left.run(prefix), right.run(prefix)) {
            let j = choose|j: int|
                0 <= j < nodes.len() && (#[trigger] nodes[j]).key.left@.to_set() == left.run(prefix) && nodes[j].key.right@.to_set()
                    == right.run(prefix);
            let key = nodes[j].key;
            if any_has(pair_sets(left, right, key), c as int) {
                assert(pair_closed(left, right, nodes, j));
                lemma_within_has_pair(nodes, left.step_set(key.left@.to_set(), c), right.step_set(key.right@.to_set(), c), path_word(nodes, j).len() + 1);
            } else {
                lemma_any_has_split(subset_sets(left.states@, key.left@), subset_sets(right.states@, key.right@), c as int);
                lemma_moves_none(left, key.left@, c);
                lemma_moves_none(right, key.right@, c);
            }
        } else {
            left.lemma_step_from_empty(c);
            right.lemma_step_from_empty(c);
        }
    }
}


/// While every node above node `head` is closed, a string shorter than
/// node `head`'s leads to a node no deeper than the string, or to the
/// empty pair.
proof fn lemma_product_reach_within(
    left: Nfa,
    right: Nfa,
    nodes: Seq<SearchNode<ProductKey>>,
    head: int,
    w: Seq<char>,
)
    requires
        left.wf(),
        right.wf(),
        0 <= head < nodes.len(),
        nodes[0].parent is None,
        nodes[0].key.left@.to_set() == left.run(Seq::empty()),
        nodes[0].key.right@.to_set() == right.run(Seq::empty()),
        depth_sorted(nodes),
        forall|i: int| 0 <= i < head ==> #[trigger] pair_closed(left, right, nodes, i),
        forall|i: int|
            0 <= i < nodes.len() ==> forall|k: int| 0 <= k < (#[trigger] nodes[i]).key.left@.len() ==> nodes[i].key.left@[k] < left.states@.len(),
        forall|i: int|
            0 <= i < nodes.len() ==> forall|k: int| 0 <= k < (#[trigger] nodes[i]).key.right@.len() ==> nodes[i].key.right@[k] < right.states@.len(),
        w.len() < path_word(nodes, head).len(),
    ensures
        has_pair_within(nodes, left.run(w), right.run(w), w.len()) || (left.run(w) == Set::<usize>::empty()
            && right.run(w) == Set::<usize>::empty()),
    decreases w.len(),
{
    if w.len() == 0 {
        assert(w =~= Seq::<char>::empty());
        assert(path_word(nodes, 0) =~= Seq::<char>::empty());
        assert(nodes[0].key.left@.to_set() == left.run(w));
    } else {
        let prefix = w.drop_last();
        let c = w.last();
        lemma_product_reach_within(left, right, nodes, head, prefix);
        lemma_run_push(left, prefix, c);
        lemma_run_push(right, prefix, c);
        assert(prefix.push(c) =~= w);
        if has_pair_within(nodes, left.run(prefix), right.run(prefix), prefix.len()) {
            let j = choose|j: int|
                0 <= j < nodes.len() && (#[trigger] nodes[j]).key.left@.to_set() == left.run(prefix) && nodes[j].key.right@.to_set()
                    == right.run(prefix) && path_word(nodes, j).len() <= prefix.len();
            if j >= head {
                assert(path_word(nodes, head).len() <= path_word(nodes, j).len());
            }
            let key = nodes[j].key;
            if any_has(pair_sets(left, right, key), c as int) {
                assert(pair_closed(left, right, nodes, j));
                let l2 = left.step_set(key.left@.to_set(), c);
                let r2 = right.step_set(key.right@.to_set(), c);
                assert(has_pair_within(nodes, l2, r2, path_word(nodes, j).len() + 1));
                let k = choose|k: int|
                    0 <= k < nodes.len() && (#[trigger] nodes[k]).key.left@.to_set() == l2 && nodes[k].key.right@.to_set() == r2
                        && path_word(nodes, k).len() <= path_word(nodes, j).len() + 1;
                assert(nodes[k].key.left@.to_set() == left.run(w));
            } else {
                lemma_any_has_split(subset_sets(left.states@, key.left@), subset_sets(right.states@, key.right@), c as int);
                lemma_moves_none(left, key.left@, c);
                lemma_moves_none(right, key.right@, c);
            }
        } else {
            left.lemma_step_from_empty(c);
            right.lemma_step_from_empty(c);
        }
    }
}

/// The bucket a product key is filed under.
spec fn pair_slot_of(key: ProductKey) -> int {
    mix_of(mix_of(key.left@.len() as int % (BUCKETS as int), key.left@), key.right@)
}

/// Two product keys hold the same pair of subsets.
spec fn same_pair(a: ProductKey, b: ProductKey) -> bool {
    a.left@ == b.left@ && a.right@ == b.right@
}

/// Node `j` is filed in bucket `b`.
spec fn filed(buckets: Seq<Vec<usize>>, b: int, j: int) -> bool {
    0 <= b < buckets.len() && exists|e: int| 0 <= e < buckets[b]@.len() && buckets[b]@[e] == j
}

/// Every node is filed under its key's bucket.
spec fn pairs_filed(buckets: Seq<Vec<usize>>, nodes: Seq<SearchNode<ProductKey>>) -> bool {
    forall|j: int| 0 <= j < nodes.len() ==> #[trigger] filed(buckets, pair_slot_of(nodes[j].key), j)
}

/// No two nodes hold the same pair of subsets.
spec fn pairs_distinct(nodes: Seq<SearchNode<ProductKey>>) -> bool {
    forall|i: int, j: int| 0 <= i < j < nodes.len() ==> !same_pair(#[trigger] nodes[i].key, #[trigger] nodes[j].key)
}

/// Filing a new node keeps every node filed.
proof fn lemma_pairs_filed_push(
    before: Seq<Vec<usize>>,
    after: Seq<Vec<usize>>,
    nodes: Seq<SearchNode<ProductKey>>,
    node: SearchNode<ProductKey>,
)
    requires
        pairs_filed(before, nodes),
        nodes.len() <= usize::MAX,
        0 <= pair_slot_of(node.key) < before.len(),
        after.len() == before.len(),
        after[pair_slot_of(node.key)]@ == before[pair_slot_of(node.key)]@.push(nodes.len() as usize),
        forall|b: int| 0 <= b < before.len() && b != pair_slot_of(node.key) ==> #[trigger] after[b] == before[b],
    ensures
        pairs_filed(after, nodes.push(node)),
{
    let all = nodes.push(node);
    let slot = pair_slot_of(node.key);
    assert forall|j: int| 0 <= j < all.len() implies #[trigger] filed(after, pair_slot_of(all[j].key), j) by {
        if j < nodes.len() {
            assert(all[j] == nodes[j]);
            assert(filed(before, pair_slot_of(nodes[j].key), j));
            let b = pair_slot_of(nodes[j].key);
            let e = choose|e: int| 0 <= e < before[b]@.len() && before[b]@[e] == j;
            if b == slot {
                assert(after[b]@[e] == j);
            } else {
                assert(after[b] == before[b]);
            }
        } else {
            assert(all[j] == node);
            assert(after[slot]@[before[slot]@.len() as int] == j);
        }
    }
}

/// Reading the same subsets on every string of two distinct nodes would
/// make their keys equal: the nodes' strings reach pairwise distinct pairs
/// of subsets.
proof fn lemma_distinct_pair_runs(left: Nfa, right: Nfa, nodes: Seq<SearchNode<ProductKey>>)
    requires
        product_nodes_ok(left, right, nodes),
        pairs_distinct(nodes),
    ensures
        exists|ws: Seq<Seq<char>>|
            ws.len() == nodes.len() && forall|i: int, j: int|
                0 <= i < j < ws.len() ==> left.run(#[trigger] ws[i]) != left.run(#[trigger] ws[j]) || right.run(ws[i])
                    != right.run(ws[j]),
{
    let ws = Seq::new(nodes.len(), |j: int| path_word(nodes, j));
    assert forall|i: int, j: int| 0 <= i < j < ws.len() implies left.run(#[trigger] ws[i]) != left.run(#[trigger] ws[j])
        || right.run(ws[i]) != right.run(ws[j]) by {
        assert(pair_ok(left, right, nodes[i].key, path_word(nodes, i)));
        assert(pair_ok(left, right, nodes[j].key, path_word(nodes, j)));
        if left.run(ws[i]) == left.run(ws[j]) && right.run(ws[i]) == right.run(ws[j]) {
            crate::minimize::lemma_sorted_set_eq(nodes[i].key.left@, nodes[j].key.left@);
            crate::minimize::lemma_sorted_set_eq(nodes[i].key.right@, nodes[j].key.right@);
            assert(same_pair(nodes[i].key, nodes[j].key));
        }
    }
}

/// Node `id` holds the product key `(left, right)`.
spec fn pair_key_is(nodes: Seq<SearchNode<ProductKey>>, id: usize, left: Seq<usize>, right: Seq<usize>) -> bool {
    id < nodes.len() && nodes[id as int].key.left@ == left && nodes[id as int].key.right@ == right
}

/// The bucket of a product key.
fn pair_slot(key: &ProductKey) -> (r: usize)
    ensures
        r < BUCKETS,
        r == mix_of(mix_of(key.left@.len() as int % (BUCKETS as int), key.left@), key.right@),
{
    let h = mix_ids(key.left.len() % BUCKETS, &key.left);
    mix_ids(h, &key.right)
}

/// Some node recorded in bucket `slot` has exactly the key `key`.
fn find_pair(buckets: &Vec<Vec<usize>>, nodes: &Vec<SearchNode<ProductKey>>, slot: usize, key: &ProductKey) -> (r: bool)
    requires
        slot < buckets@.len(),
        buckets_ok(buckets@, nodes@.len() as int),
    ensures
        r ==> exists|j: int|
            0 <= j < nodes@.len() && (#[trigger] nodes@[j]).key.left@ == key.left@ && nodes@[j].key.right@ == key.right@,
        r == exists|e: int|
            0 <= e < buckets@[slot as int]@.len() && #[trigger] pair_key_is(nodes@, buckets@[slot as int]@[e], key.left@, key.right@),
{
    let bucket = &buckets[slot];
    let mut e: usize = 0;
    while e < bucket.len()
        invariant
            slot < buckets@.len(),
            *bucket == buckets@[slot as int],
            buckets_ok(buckets@, nodes@.len() as int),
            e <= bucket@.len(),
            forall|f: int| 0 <= f < e ==> !#[trigger] pair_key_is(nodes@, bucket@[f], key.left@, key.right@),
        decreases bucket@.len() - e,
    {
        let id = bucket[e];
        proof {
            assert(buckets@[slot as int]@[e as int] < nodes@.len());
        }
        if same_ids(&nodes[id].key.left, &key.left) && same_ids(&nodes[id].key.right, &key.right) {
            proof {
                assert(nodes@[id as int].key.left@ == key.left@);
                assert(pair_key_is(nodes@, bucket@[e as int], key.left@, key.right@));
            }
            return true;
        }
        e += 1;
    }
    false
}

/// The number of states a search may visit under the limit `max`: at
/// least the start.
pub open spec fn state_budget(max: usize) -> int {
    if max == 0 {
        1
    } else {
        max as int
    }
}

/// A result for a search that stopped without a witness.
fn stopped_result(status: BackendStatus, visited_states: usize, generated_transitions: usize, started: &Instant) -> (r:
    BackendResult)
    ensures
        r.status == status,
        r.witness is None,
        r.relation is None,
        r.visited_states == visited_states,
        r.generated_transitions == generated_transitions,
        r.witness_extraction_ms == 0,
{
    BackendResult {
        status,
        witness: None,
        relation: None,
        visited_states,
        generated_transitions,
        analysis_ms: elapsed_ms(started),
        witness_extraction_ms: 0,
    }
}

/// The edge classes leaving both subsets, left ones first.
fn pair_outgoing<'a>(left: &'a Nfa, right: &'a Nfa, key: &ProductKey) -> (r: Vec<&'a CharSet>)
    requires
        left.wf(),
        right.wf(),
        forall|i: int| 0 <= i < key.left@.len() ==> #[trigger] key.left@[i] < left.states@.len(),
        forall|i: int| 0 <= i < key.right@.len() ==> #[trigger] key.right@[i] < right.states@.len(),
    ensures
        source_sets(r@) == pair_sets(*left, *right, *key),
{
    let mut sets = left.outgoing_sets(&key.left);
    let mut right_sets = right.outgoing_sets(&key.right);
    let ghost l = sets@;
    let ghost rr = right_sets@;
    sets.append(&mut right_sets);
    proof {
        assert(sets@ == l + rr);
        assert(source_sets(sets@) =~= deref_sets(l) + deref_sets(rr));
    }
    sets
}

/// The witness-search behind overlap, inclusion and equivalence: a
/// breadth-first walk over pairs of subsets (one per automaton) reached by
/// the same string, trying one character per range of the alphabet on
/// which every outgoing edge class agrees, lowest first.
///
/// A string found settles `query` on the two automata; a search that runs
/// out of pairs proves that no string does. A full node table or the
/// timeout stop it without a verdict.
pub fn search_product<K: Clock>(query: Query, left: &Nfa, right: &Nfa, config: &Config, clock: &K) -> (r: BackendResult)
    requires
        left.wf(),
        right.wf(),
        left.scalar_edges(),
        right.scalar_edges(),
    ensures
        (r.status == BackendStatus::Found) == (r.witness is Some),
        (r.status == BackendStatus::Found) == (r.relation is Some),
        r.status == BackendStatus::Found ==> (r.witness matches Some(w) && r.relation matches Some(rel) && relation_of(
            query,
            left.accepts(w@),
            right.accepts(w@),
        ) == Some(rel@)),
        r.status == BackendStatus::Exhausted ==> forall|w: Seq<char>|
            #[trigger] relation_of(query, left.accepts(w), right.accepts(w)) is None,
        r.status == BackendStatus::Found ==> (r.witness matches Some(w) && forall|u: Seq<char>|
            u.len() < w@.len() ==> #[trigger] relation_of(query, left.accepts(u), right.accepts(u)) is None),
        r.status == BackendStatus::StateLimit ==> r.visited_states >= config.max_product_states,
        r.visited_states <= state_budget(config.max_product_states),
        r.visited_states >= 1,
        r.status != BackendStatus::Found ==> r.witness_extraction_ms == 0,
        r.status == BackendStatus::Timeout ==> exists|t: u128| #[trigger] clock.may_read(t) && t >= config.timeout_ms as u128,
        r.status == BackendStatus::StateLimit ==> exists|ws: Seq<Seq<char>>|
            ws.len() >= config.max_product_states && forall|i: int, j: int|
                0 <= i < j < ws.len() ==> left.run(#[trigger] ws[i]) != left.run(#[trigger] ws[j]) || right.run(ws[i])
                    != right.run(ws[j]),
        r.status == BackendStatus::StateLimit ==> relation_of(
            query,
            left.accepts(Seq::empty()),
            right.accepts(Seq::empty()),
        ) is None,
        r.status == BackendStatus::Found ==> (r.witness matches Some(w) && (w@.len() == 0 || w@.len()
            < config.max_product_states)),
{
    let started = instant_now();
    let initial = ProductKey { left: left.start_subset(), right: right.start_subset() };
    let first_slot = pair_slot(&initial);
    let mut buckets = empty_buckets();
    let mut nodes: Vec<SearchNode<ProductKey>> = Vec::new();
    nodes.push(SearchNode { key: initial, parent: None });
    bucket_add(&mut buckets, first_slot, 0);
    let mut head: usize = 0;
    let mut generated_transitions: usize = 0;
    let ghost limit: int = if config.max_product_states == 0 {
        1
    } else {
        config.max_product_states as int
    };
    proof {
        assert(path_word(nodes@, 0) =~= Seq::<char>::empty());
        assert(pair_ok(*left, *right, nodes@[0].key, path_word(nodes@, 0)));
        let b = first_slot as int;
        assert(buckets@[b]@[buckets@[b]@.len() - 1] == 0);
        assert(filed(buckets@, pair_slot_of(nodes@[0].key), 0));
    }
    while head < nodes.len()
        invariant
            left.wf(),
            right.wf(),
            left.scalar_edges(),
            right.scalar_edges(),
            limit == if config.max_product_states == 0 {
                1
            } else {
                config.max_product_states as int
            },
            1 <= nodes@.len() <= limit,
            head <= nodes@.len(),
            parents_ok(nodes@),
            nodes@[0].parent is None,
            product_nodes_ok(*left, *right, nodes@),
            buckets_ok(buckets@, nodes@.len() as int),
            pairs_filed(buckets@, nodes@),
            pairs_distinct(nodes@),
            forall|i: int| 0 <= i < head ==> #[trigger] pair_closed(*left, *right, nodes@, i),
            forall|i: int| 0 <= i < head ==> pair_quiet(query, *left, *right, #[trigger] nodes@[i].key),
            depth_sorted(nodes@),
            head < nodes@.len() ==> forall|j: int|
                0 <= j < nodes@.len() ==> #[trigger] path_word(nodes@, j).len() <= path_word(nodes@, head as int).len() + 1,
        decreases limit - head,
    {
        let reading = clock.read_ms();
        if reading >= config.timeout_ms as u128 {
            return stopped_result(BackendStatus::Timeout, nodes.len(), generated_transitions, &started);
        }
        let node_id = head;
        let ghost key0 = nodes@[node_id as int].key;
        let ghost word = path_word(nodes@, node_id as int);
        proof {
            assert(pair_ok(*left, *right, key0, word));
        }
        let left_accepts = left.is_accepting(&nodes[node_id].key.left);
        let right_accepts = right.is_accepting(&nodes[node_id].key.right);
        if let Some(rel) = classify_relation(query, left_accepts, right_accepts) {
            let analysis_ms = elapsed_ms(&started);
            let witness_started = instant_now();
            let witness = reconstruct(&nodes, node_id);
            let witness_extraction_ms = elapsed_ms(&witness_started);
            proof {
                lemma_path_word_len(nodes@, node_id as int);
                assert(path_word(nodes@, 0) =~= Seq::<char>::empty());
                assert(pair_ok(*left, *right, nodes@[0].key, path_word(nodes@, 0)));
                assert forall|i: int| 0 <= i < nodes@.len() implies forall|k: int| 0 <= k < (#[trigger] nodes@[i]).key.left@.len() ==> nodes@[i].key.left@[k] < left.states@.len() by {
                    assert(pair_ok(*left, *right, nodes@[i].key, path_word(nodes@, i)));
                }
                assert forall|i: int| 0 <= i < nodes@.len() implies forall|k: int| 0 <= k < (#[trigger] nodes@[i]).key.right@.len() ==> nodes@[i].key.right@[k] < right.states@.len() by {
                    assert(pair_ok(*left, *right, nodes@[i].key, path_word(nodes@, i)));
                }
                assert forall|u: Seq<char>| u.len() < witness@.len() implies #[trigger] relation_of(
                    query,
                    left.accepts(u),
                    right.accepts(u),
                ) is None by {
                    lemma_product_reach_within(*left, *right, nodes@, head as int, u);
                    if has_pair_within(nodes@, left.run(u), right.run(u), u.len()) {
                        let j = choose|j: int|
                            0 <= j < nodes@.len() && (#[trigger] nodes@[j]).key.left@.to_set() == left.run(u)
                                && nodes@[j].key.right@.to_set() == right.run(u) && path_word(nodes@, j).len() <= u.len();
                        if j >= head {
                            assert(path_word(nodes@, head as int).len() <= path_word(nodes@, j).len());
                        }
                        assert(pair_quiet(query, *left, *right, nodes@[j].key));
                    }
                }
            }
            return BackendResult {
                status: BackendStatus::Found,
                witness: Some(witness),
                relation: Some(rel.to_owned()),
                visited_states: nodes.len(),
                generated_transitions,
                analysis_ms,
                witness_extraction_ms,
            };
        }
        let sets = pair_outgoing(left, right, &nodes[node_id].key);
        let representatives = representative_chars(&sets);
        proof {
            lemma_subset_sets_scalar(*left, key0.left@);
            lemma_subset_sets_scalar(*right, key0.right@);
            let all = pair_sets(*left, *right, key0);
            assert forall|k: int, v: int| 0 <= k < all.len() && #[trigger] all[k].has(v) implies crate::charset::is_scalar(
                v,
            ) by {
                let a = subset_sets(left.states@, key0.left@);
                let b = subset_sets(right.states@, key0.right@);
                if k < a.len() {
                    assert(all[k] == a[k]);
                } else {
                    assert(all[k] == b[k - a.len()]);
                }
            }
        }
        let mut t: usize = 0;
        while t < representatives.len()
            invariant
                pair_quiet(query, *left, *right, key0),
                left.wf(),
                right.wf(),
                left.scalar_edges(),
                right.scalar_edges(),
                limit == if config.max_product_states == 0 {
                    1
                } else {
                    config.max_product_states as int
                },
                1 <= nodes@.len() <= limit,
                node_id == head,
                head < nodes@.len(),
                nodes@[node_id as int].key == key0,
                word == path_word(nodes@, node_id as int),
                pair_ok(*left, *right, key0, word),
                parents_ok(nodes@),
                nodes@[0].parent is None,
                product_nodes_ok(*left, *right, nodes@),
                buckets_ok(buckets@, nodes@.len() as int),
                pairs_filed(buckets@, nodes@),
                pairs_distinct(nodes@),
                forall|i: int| 0 <= i < head ==> #[trigger] pair_closed(*left, *right, nodes@, i),
                forall|i: int| 0 <= i < head ==> pair_quiet(query, *left, *right, #[trigger] nodes@[i].key),
                depth_sorted(nodes@),
                forall|j: int| 0 <= j < nodes@.len() ==> #[trigger] path_word(nodes@, j).len() <= word.len() + 1,
                t <= representatives@.len(),
                forall|m: int|
                    0 <= m < t ==> has_pair_within(
                        nodes@,
                        left.step_set(key0.left@.to_set(), #[trigger] representatives@[m]),
                        right.step_set(key0.right@.to_set(), representatives@[m]),
                        word.len() + 1,
                    ),
            decreases representatives@.len() - t,
        {
            let ch = representatives[t];
            generated_transitions = generated_transitions.saturating_add(1);
            let next = ProductKey {
                left: left.step(&nodes[node_id].key.left, ch),
                right: right.step(&nodes[node_id].key.right, ch),
            };
            let ghost lset = left.step_set(key0.left@.to_set(), ch);
            let ghost rset = right.step_set(key0.right@.to_set(), ch);
            let slot = pair_slot(&next);
            if find_pair(&buckets, &nodes, slot, &next) {
                proof {
                    let j = choose|j: int|
                        0 <= j < nodes@.len() && (#[trigger] nodes@[j]).key.left@ == next.left@ && nodes@[j].key.right@
                            == next.right@;
                    assert(nodes@[j].key.left@.to_set() == lset);
                    assert(nodes@[j].key.right@.to_set() == rset);
                    assert(path_word(nodes@, j).len() <= word.len() + 1);
                    assert(has_pair_within(nodes@, lset, rset, word.len() + 1));
                }
            } else {
                if nodes.len() >= config.max_product_states {
                    proof {
                        lemma_distinct_pair_runs(*left, *right, nodes@);
                        assert(path_word(nodes@, 0) =~= Seq::<char>::empty());
                        assert(pair_ok(*left, *right, nodes@[0].key, path_word(nodes@, 0)));
                        if head > 0 {
                            assert(pair_quiet(query, *left, *right, nodes@[0].key));
                        }
                    }
                    return stopped_result(BackendStatus::StateLimit, nodes.len(), generated_transitions, &started);
                }
                proof {
                    assert forall|j: int| 0 <= j < nodes@.len() implies !same_pair(#[trigger] nodes@[j].key, next) by {
                        if same_pair(nodes@[j].key, next) {
                            assert(filed(buckets@, pair_slot_of(nodes@[j].key), j));
                            let e = choose|e: int|
                                0 <= e < buckets@[slot as int]@.len() && buckets@[slot as int]@[e] == j;
                            assert(pair_key_is(nodes@, buckets@[slot as int]@[e], next.left@, next.right@));
                        }
                    }
                }
                let next_id = nodes.len();
                let ghost before = nodes@;
                let ghost buckets_before = buckets@;
                let node = SearchNode { key: next, parent: Some((node_id, ch)) };
                nodes.push(node);
                bucket_add(&mut buckets, slot, next_id);
                proof {
                    assert(nodes@ == before.push(node));
                    lemma_pairs_filed_push(buckets_before, buckets@, before, node);
                    assert forall|i: int, j: int| 0 <= i < j < nodes@.len() implies !same_pair(
                        #[trigger] nodes@[i].key,
                        #[trigger] nodes@[j].key,
                    ) by {
                        assert(nodes@[i] == before[i]);
                        if j < before.len() {
                            assert(nodes@[j] == before[j]);
                        }
                    }
                    assert forall|j: int| 0 <= j < nodes@.len() implies match #[trigger] nodes@[j].parent {
                        Some(edge) => edge.0 < j,
                        None => true,
                    } by {
                        if j < before.len() {
                            assert(nodes@[j] == before[j]);
                        }
                    }
                    lemma_path_word_push(before, node, node_id as int);
                    assert(path_word(nodes@, next_id as int) == path_word(before, node_id as int).push(ch));
                    lemma_run_push(*left, word, ch);
                    lemma_run_push(*right, word, ch);
                    assert forall|j: int| 0 <= j < nodes@.len() implies #[trigger] pair_ok(
                        *left,
                        *right,
                        nodes@[j].key,
                        path_word(nodes@, j),
                    ) by {
                        if j < before.len() {
                            lemma_path_word_push(before, node, j);
                            assert(nodes@[j] == before[j]);
                            assert(pair_ok(*left, *right, before[j].key, path_word(before, j)));
                        }
                    }
                    assert forall|i: int| 0 <= i < head implies #[trigger] pair_closed(*left, *right, nodes@, i) by {
                        lemma_pair_closed_push(*left, *right, before, node, i);
                    }
                    assert forall|i: int| 0 <= i < head implies pair_quiet(query, *left, *right, #[trigger] nodes@[i].key) by {
                        assert(nodes@[i] == before[i]);
                    }
                    assert forall|m: int| 0 <= m < t implies has_pair_within(
                        nodes@,
                        left.step_set(key0.left@.to_set(), #[trigger] representatives@[m]),
                        right.step_set(key0.right@.to_set(), representatives@[m]),
                        word.len() + 1,
                    ) by {
                        lemma_has_pair_within_push(
                            before,
                            node,
                            left.step_set(key0.left@.to_set(), representatives@[m]),
                            right.step_set(key0.right@.to_set(), representatives@[m]),
                            word.len() + 1,
                        );
                    }
                    assert forall|j: int| 0 <= j < nodes@.len() implies #[trigger] path_word(nodes@, j).len() <= word.len() + 1 by {
                        if j < before.len() {
                            lemma_path_word_push(before, node, j);
                        }
                    }
                    assert forall|i: int, j: int|
                        0 <= i <= j < nodes@.len() implies #[trigger] path_word(nodes@, i).len() <= #[trigger] path_word(
                        nodes@,
                        j,
                    ).len() by {
                        if j < before.len() {
                            lemma_path_word_push(before, node, i);
                            lemma_path_word_push(before, node, j);
                        } else if i < before.len() {
                            lemma_path_word_push(before, node, i);
                        }
                    }
                    assert(nodes@[next_id as int].key.left@.to_set() == lset);
                    assert(has_pair_within(nodes@, lset, rset, word.len() + 1));
                    assert(nodes@[node_id as int] == before[node_id as int]);
                    assert(nodes@[0] == before[0]);
                }
            }
            t += 1;
        }
        proof {
            let all = pair_sets(*left, *right, key0);
            assert(source_sets(sets@) == all);
            assert forall|c: char| #[trigger] any_has(pair_sets(*left, *right, nodes@[node_id as int].key), c as int) implies has_pair_within(
                nodes@,
                left.step_set(nodes@[node_id as int].key.left@.to_set(), c),
                right.step_set(nodes@[node_id as int].key.right@.to_set(), c),
                path_word(nodes@, node_id as int).len() + 1,
            ) by {
                let m = choose|m: int| 0 <= m < representatives@.len() && same_membership(all, c as int, #[trigger] representatives@[m] as int);
                let d = representatives@[m];
                lemma_same_membership_split(subset_sets(left.states@, key0.left@), subset_sets(right.states@, key0.right@), c as int, d as int);
                lemma_moves_alike(*left, key0.left@, c, d);
                lemma_moves_alike(*right, key0.right@, c, d);
            }
            assert(pair_closed(*left, *right, nodes@, node_id as int));
            assert(pair_quiet(query, *left, *right, nodes@[node_id as int].key));
        }
        head += 1;
    }
    proof {
        assert(path_word(nodes@, 0) =~= Seq::<char>::empty());
        assert(pair_ok(*left, *right, nodes@[0].key, path_word(nodes@, 0)));
        assert(has_pair(nodes@, left.run(Seq::empty()), right.run(Seq::empty())));
        assert forall|i: int| 0 <= i < nodes@.len() implies forall|k: int| 0 <= k < (#[trigger] nodes@[i]).key.left@.len() ==> nodes@[i].key.left@[k] < left.states@.len() by {
            assert(pair_ok(*left, *right, nodes@[i].key, path_word(nodes@, i)));
        }
        assert forall|i: int| 0 <= i < nodes@.len() implies forall|k: int| 0 <= k < (#[trigger] nodes@[i]).key.right@.len() ==> nodes@[i].key.right@[k] < right.states@.len() by {
            assert(pair_ok(*left, *right, nodes@[i].key, path_word(nodes@, i)));
        }
        assert forall|w: Seq<char>| #[trigger] relation_of(query, left.accepts(w), right.accepts(w)) is None by {
            lemma_product_reach(*left, *right, nodes@, w);
            if has_pair(nodes@, left.run(w), right.run(w)) {
                let j = choose|j: int|
                    0 <= j < nodes@.len() && (#[trigger] nodes@[j]).key.left@.to_set() == left.run(w) && nodes@[j].key.right@.to_set()
                        == right.run(w);
                assert(pair_quiet(query, *left, *right, nodes@[j].key));
            }
        }
    }
    stopped_result(BackendStatus::Exhausted, nodes.len(), generated_transitions, &started)
}


/// Every node's key is the subset reached on its string.
spec fn single_nodes_ok(nfa: Nfa, nodes: Seq<SearchNode<Vec<usize>>>) -> bool {
    forall|j: int| 0 <= j < nodes.len() ==> #[trigger] subset_ok(nfa, nodes[j].key@, path_word(nodes, j))
}

/// Some node holds the subset `s`.
spec fn has_subset(nodes: Seq<SearchNode<Vec<usize>>>, s: Set<usize>) -> bool {
    exists|j: int| 0 <= j < nodes.len() && (#[trigger] nodes[j]).key@.to_set() == s
}

/// Some node no deeper than `d` holds the subset `s`.
spec fn has_subset_within(nodes: Seq<SearchNode<Vec<usize>>>, s: Set<usize>, d: nat) -> bool {
    exists|j: int| 0 <= j < nodes.len() && (#[trigger] nodes[j]).key@.to_set() == s && path_word(nodes, j).len() <= d
}

/// Every character some edge out of node `i` carries leads to a node at
/// most one deeper.
spec fn single_closed(nfa: Nfa, nodes: Seq<SearchNode<Vec<usize>>>, i: int) -> bool {
    forall|c: char|
        #[trigger] any_has(subset_sets(nfa.states@, nodes[i].key@), c as int) ==> has_subset_within(
            nodes,
            nfa.step_set(nodes[i].key@.to_set(), c),
            path_word(nodes, i).len() + 1,
        )
}

proof fn lemma_has_subset_push(nodes: Seq<SearchNode<Vec<usize>>>, x: SearchNode<Vec<usize>>, s: Set<usize>, d: nat)
    requires
        has_subset_within(nodes, s, d),
    ensures
        has_subset_within(nodes.push(x), s, d),
{
    let j = choose|j: int| 0 <= j < nodes.len() && (#[trigger] nodes[j]).key@.to_set() == s && path_word(nodes, j).len() <= d;
    assert(nodes.push(x)[j] == nodes[j]);
    lemma_path_word_push(nodes, x, j);
}

proof fn lemma_single_closed_push(nfa: Nfa, nodes: Seq<SearchNode<Vec<usize>>>, x: SearchNode<Vec<usize>>, i: int)
    requires
        0 <= i < nodes.len(),
        single_closed(nfa, nodes, i),
    ensures
        single_closed(nfa, nodes.push(x), i),
{
    let longer = nodes.push(x);
    assert(longer[i] == nodes[i]);
    lemma_path_word_push(nodes, x, i);
    assert forall|c: char| #[trigger] any_has(subset_sets(nfa.states@, longer[i].key@), c as int) implies has_subset_within(
        longer,
        nfa.step_set(longer[i].key@.to_set(), c),
        path_word(longer, i).len() + 1,
    ) by {
        assert(any_has(subset_sets(nfa.states@, nodes[i].key@), c as int));
        lemma_has_subset_push(nodes, x, nfa.step_set(nodes[i].key@.to_set(), c), path_word(nodes, i).len() + 1);
    }
}

/// Every string leads to a node's subset or to the empty subset.
proof fn lemma_single_reach(nfa: Nfa, nodes: Seq<SearchNode<Vec<usize>>>, w: Seq<char>)
    requires
        nfa.wf(),
        has_subset(nodes, nfa.run(Seq::empty())),
        forall|i: int| 0 <= i < nodes.len() ==> #[trigger] single_closed(nfa, nodes, i),
        forall|i: int|
            0 <= i < nodes.len() ==> forall|k: int| 0 <= k < (#[trigger] nodes[i]).key@.len() ==> nodes[i].key@[k] < nfa.states@.len(),
    ensures
        has_subset(nodes, nfa.run(w)) || nfa.run(w) == Set::<usize>::empty(),
    decreases w.len(),
{
    if w.len() > 0 {
        let prefix = w.drop_last();
        let c = w.last();
        lemma_single_reach(nfa, nodes, prefix);
        lemma_run_push(nfa, prefix, c);
        assert(prefix.push(c) =~= w);
        if has_subset(nodes, nfa.run(prefix)) {
            let j = choose|j: int| 0 <= j < nodes.len() && (#[trigger] nodes[j]).key@.to_set() == nfa.run(prefix);
            if any_has(subset_sets(nfa.states@, nodes[j].key@), c as int) {
                assert(single_closed(nfa, nodes, j));
                let s2 = nfa.step_set(nodes[j].key@.to_set(), c);
                let k = choose|k: int|
                    0 <= k < nodes.len() && (#[trigger] nodes[k]).key@.to_set() == s2 && path_word(nodes, k).len() <= path_word(
                        nodes,
                        j,
                    ).len() + 1;
                assert(nodes[k].key@.to_set() == s2);
            } else {
                lemma_moves_none(nfa, nodes[j].key@, c);
            }
        } else {
            nfa.lemma_step_from_empty(c);
        }
    }
}

/// While every node above node `head` is closed, a string shorter than
/// node `head`'s leads to a node no deeper than the string, or to the
/// empty subset.
proof fn lemma_single_reach_within(nfa: Nfa, nodes: Seq<SearchNode<Vec<usize>>>, head: int, w: Seq<char>)
    requires
        nfa.wf(),
        0 <= head < nodes.len(),
        nodes[0].parent is None,
        nodes[0].key@.to_set() == nfa.run(Seq::empty()),
        depth_sorted(nodes),
        forall|i: int| 0 <= i < head ==> #[trigger] single_closed(nfa, nodes, i),
        forall|i: int|
            0 <= i < nodes.len() ==> forall|k: int| 0 <= k < (#[trigger] nodes[i]).key@.len() ==> nodes[i].key@[k] < nfa.states@.len(),
        w.len() < path_word(nodes, head).len(),
    ensures
        has_subset_within(nodes, nfa.run(w), w.len()) || nfa.run(w) == Set::<usize>::empty(),
    decreases w.len(),
{
    if w.len() == 0 {
        assert(w =~= Seq::<char>::empty());
        assert(path_word(nodes, 0) =~= Seq::<char>::empty());
        assert(nodes[0].key@.to_set() == nfa.run(w));
    } else {
        let prefix = w.drop_last();
        let c = w.last();
        lemma_single_reach_within(nfa, nodes, head, prefix);
        lemma_run_push(nfa, prefix, c);
        assert(prefix.push(c) =~= w);
        if has_subset_within(nodes, nfa.run(prefix), prefix.len()) {
            let j = choose|j: int|
                0 <= j < nodes.len() && (#[trigger] nodes[j]).key@.to_set() == nfa.run(prefix) && path_word(nodes, j).len()
                    <= prefix.len();
            if j >= head {
                assert(path_word(nodes, head).len() <= path_word(nodes, j).len());
            }
            if any_has(subset_sets(nfa.states@, nodes[j].key@), c as int) {
                assert(single_closed(nfa, nodes, j));
                let s2 = nfa.step_set(nodes[j].key@.to_set(), c);
                let k = choose|k: int|
                    0 <= k < nodes.len() && (#[trigger] nodes[k]).key@.to_set() == s2 && path_word(nodes, k).len() <= path_word(
                        nodes,
                        j,
                    ).len() + 1;
                assert(nodes[k].key@.to_set() == nfa.run(w));
            } else {
                lemma_moves_none(nfa, nodes[j].key@, c);
            }
        } else {
            nfa.lemma_step_from_empty(c);
        }
    }
}

/// The bucket of a subset key.
pub(crate) fn subset_slot(key: &Vec<usize>) -> (r: usize)
    ensures
        r < BUCKETS,
        r == subset_slot_of(key@),
{
    mix_ids(key.len() % BUCKETS, key)
}

/// Every node is filed under its subset's bucket.
spec fn subsets_filed(buckets: Seq<Vec<usize>>, nodes: Seq<SearchNode<Vec<usize>>>) -> bool {
    forall|j: int| 0 <= j < nodes.len() ==> #[trigger] filed(buckets, subset_slot_of(nodes[j].key@), j)
}

/// No two nodes hold the same subset.
spec fn subsets_distinct(nodes: Seq<SearchNode<Vec<usize>>>) -> bool {
    forall|i: int, j: int| 0 <= i < j < nodes.len() ==> (#[trigger] nodes[i]).key@ != (#[trigger] nodes[j]).key@
}

/// Filing a new node keeps every node filed.
proof fn lemma_subsets_filed_push(
    before: Seq<Vec<usize>>,
    after: Seq<Vec<usize>>,
    nodes: Seq<SearchNode<Vec<usize>>>,
    node: SearchNode<Vec<usize>>,
)
    requires
        subsets_filed(before, nodes),
        nodes.len() <= usize::MAX,
        0 <= subset_slot_of(node.key@) < before.len(),
        after.len() == before.len(),
        after[subset_slot_of(node.key@)]@ == before[subset_slot_of(node.key@)]@.push(nodes.len() as usize),
        forall|b: int| 0 <= b < before.len() && b != subset_slot_of(node.key@) ==> #[trigger] after[b] == before[b],
    ensures
        subsets_filed(after, nodes.push(node)),
{
    let all = nodes.push(node);
    let slot = subset_slot_of(node.key@);
    assert forall|j: int| 0 <= j < all.len() implies #[trigger] filed(after, subset_slot_of(all[j].key@), j) by {
        if j < nodes.len() {
            assert(all[j] == nodes[j]);
            assert(filed(before, subset_slot_of(nodes[j].key@), j));
            let b = subset_slot_of(nodes[j].key@);
            let e = choose|e: int| 0 <= e < before[b]@.len() && before[b]@[e] == j;
            if b == slot {
                assert(after[b]@[e] == j);
            } else {
                assert(after[b] == before[b]);
            }
        } else {
            assert(all[j] == node);
            assert(after[slot]@[before[slot]@.len() as int] == j);
        }
    }
}

/// The nodes' strings reach pairwise distinct subsets.
proof fn lemma_distinct_runs(nfa: Nfa, nodes: Seq<SearchNode<Vec<usize>>>)
    requires
        single_nodes_ok(nfa, nodes),
        subsets_distinct(nodes),
    ensures
        exists|ws: Seq<Seq<char>>|
            ws.len() == nodes.len() && forall|i: int, j: int|
                0 <= i < j < ws.len() ==> nfa.run(#[trigger] ws[i]) != nfa.run(#[trigger] ws[j]),
{
    let ws = Seq::new(nodes.len(), |j: int| path_word(nodes, j));
    assert forall|i: int, j: int| 0 <= i < j < ws.len() implies nfa.run(#[trigger] ws[i]) != nfa.run(#[trigger] ws[j]) by {
        assert(subset_ok(nfa, nodes[i].key@, path_word(nodes, i)));
        assert(subset_ok(nfa, nodes[j].key@, path_word(nodes, j)));
        if nfa.run(ws[i]) == nfa.run(ws[j]) {
            crate::minimize::lemma_sorted_set_eq(nodes[i].key@, nodes[j].key@);
        }
    }
}

/// Node `id` holds the subset key `key`.
spec fn subset_key_is(nodes: Seq<SearchNode<Vec<usize>>>, id: usize, key: Seq<usize>) -> bool {
    id < nodes.len() && nodes[id as int].key@ == key
}

/// Some node recorded in bucket `slot` has exactly the key `key`.
fn find_subset(buckets: &Vec<Vec<usize>>, nodes: &Vec<SearchNode<Vec<usize>>>, slot: usize, key: &Vec<usize>) -> (r: bool)
    requires
        slot < buckets@.len(),
        buckets_ok(buckets@, nodes@.len() as int),
    ensures
        r ==> exists|j: int| 0 <= j < nodes@.len() && (#[trigger] nodes@[j]).key@ == key@,
        r == exists|e: int|
            0 <= e < buckets@[slot as int]@.len() && #[trigger] subset_key_is(nodes@, buckets@[slot as int]@[e], key@),
{
    let bucket = &buckets[slot];
    let mut e: usize = 0;
    while e < bucket.len()
        invariant
            slot < buckets@.len(),
            *bucket == buckets@[slot as int],
            buckets_ok(buckets@, nodes@.len() as int),
            e <= bucket@.len(),
            forall|f: int| 0 <= f < e ==> !#[trigger] subset_key_is(nodes@, bucket@[f], key@),
        decreases bucket@.len() - e,
    {
        let id = bucket[e];
        proof {
            assert(buckets@[slot as int]@[e as int] < nodes@.len());
        }
        if same_ids(&nodes[id].key, key) {
            proof {
                assert(subset_key_is(nodes@, bucket@[e as int], key@));
            }
            return true;
        }
        e += 1;
    }
    false
}

/// The witness-search behind emptiness: a breadth-first walk over the
/// subsets of one automaton, one character per range of the alphabet on
/// which every outgoing edge class agrees, lowest first.
///
/// A string found is accepted; a search that runs out of subsets proves
/// that the automaton accepts nothing.
pub fn search_single<K: Clock>(nfa: &Nfa, config: &Config, clock: &K) -> (r: BackendResult)
    requires
        nfa.wf(),
        nfa.scalar_edges(),
    ensures
        (r.status == BackendStatus::Found) == (r.witness is Some),
        (r.status == BackendStatus::Found) == (r.relation is Some),
        r.status == BackendStatus::Found ==> (r.witness matches Some(w) && r.relation matches Some(rel) && nfa.accepts(w@)
            && rel@ == relation::IN_LANGUAGE@),
        r.status == BackendStatus::Exhausted ==> forall|w: Seq<char>| !#[trigger] nfa.accepts(w),
        r.status == BackendStatus::Found ==> (r.witness matches Some(w) && forall|u: Seq<char>|
            u.len() < w@.len() ==> !#[trigger] nfa.accepts(u)),
        r.status == BackendStatus::StateLimit ==> r.visited_states >= config.max_product_states,
        r.visited_states <= state_budget(config.max_product_states),
        r.visited_states >= 1,
        r.status != BackendStatus::Found ==> r.witness_extraction_ms == 0,
        r.status == BackendStatus::Timeout ==> exists|t: u128| #[trigger] clock.may_read(t) && t >= config.timeout_ms as u128,
        r.status == BackendStatus::StateLimit ==> exists|ws: Seq<Seq<char>>|
            ws.len() >= config.max_product_states && forall|i: int, j: int|
                0 <= i < j < ws.len() ==> nfa.run(#[trigger] ws[i]) != nfa.run(#[trigger] ws[j]),
        r.status == BackendStatus::StateLimit ==> !nfa.accepts(Seq::empty()),
        r.status == BackendStatus::Found ==> (r.witness matches Some(w) && (w@.len() == 0 || w@.len()
            < config.max_product_states)),
{
    let started = instant_now();
    let initial = nfa.start_subset();
    let first_slot = subset_slot(&initial);
    let mut buckets = empty_buckets();
    let mut nodes: Vec<SearchNode<Vec<usize>>> = Vec::new();
    nodes.push(SearchNode { key: initial, parent: None });
    bucket_add(&mut buckets, first_slot, 0);
    let mut head: usize = 0;
    let mut generated_transitions: usize = 0;
    let ghost limit: int = if config.max_product_states == 0 {
        1
    } else {
        config.max_product_states as int
    };
    proof {
        let b = first_slot as int;
        assert(buckets@[b]@[buckets@[b]@.len() - 1] == 0);
        assert(filed(buckets@, subset_slot_of(nodes@[0].key@), 0));
        assert(path_word(nodes@, 0) =~= Seq::<char>::empty());
        assert(subset_ok(*nfa, nodes@[0].key@, path_word(nodes@, 0)));
    }
    while head < nodes.len()
        invariant
            nfa.wf(),
            nfa.scalar_edges(),
            limit == if config.max_product_states == 0 {
                1
            } else {
                config.max_product_states as int
            },
            1 <= nodes@.len() <= limit,
            head <= nodes@.len(),
            parents_ok(nodes@),
            nodes@[0].parent is None,
            single_nodes_ok(*nfa, nodes@),
            buckets_ok(buckets@, nodes@.len() as int),
            subsets_filed(buckets@, nodes@),
            subsets_distinct(nodes@),
            forall|i: int| 0 <= i < head ==> #[trigger] single_closed(*nfa, nodes@, i),
            forall|i: int| 0 <= i < head ==> !(#[trigger] nodes@[i]).key@.to_set().contains(nfa.accept),
            depth_sorted(nodes@),
            head < nodes@.len() ==> forall|j: int|
                0 <= j < nodes@.len() ==> #[trigger] path_word(nodes@, j).len() <= path_word(nodes@, head as int).len() + 1,
        decreases limit - head,
    {
        let reading = clock.read_ms();
        if reading >= config.timeout_ms as u128 {
            return stopped_result(BackendStatus::Timeout, nodes.len(), generated_transitions, &started);
        }
        let node_id = head;
        let ghost key0 = nodes@[node_id as int].key@;
        let ghost word = path_word(nodes@, node_id as int);
        proof {
            assert(subset_ok(*nfa, key0, word));
        }
        if nfa.is_accepting(&nodes[node_id].key) {
            let analysis_ms = elapsed_ms(&started);
            let witness_started = instant_now();
            let witness = reconstruct(&nodes, node_id);
            let witness_extraction_ms = elapsed_ms(&witness_started);
            proof {
                lemma_path_word_len(nodes@, node_id as int);
                assert(path_word(nodes@, 0) =~= Seq::<char>::empty());
                assert(subset_ok(*nfa, nodes@[0].key@, path_word(nodes@, 0)));
                assert forall|i: int| 0 <= i < nodes@.len() implies forall|k: int| 0 <= k < (#[trigger] nodes@[i]).key@.len() ==> nodes@[i].key@[k] < nfa.states@.len() by {
                    assert(subset_ok(*nfa, nodes@[i].key@, path_word(nodes@, i)));
                }
                assert forall|u: Seq<char>| u.len() < witness@.len() implies !#[trigger] nfa.accepts(u) by {
                    lemma_single_reach_within(*nfa, nodes@, head as int, u);
                    if has_subset_within(nodes@, nfa.run(u), u.len()) {
                        let j = choose|j: int|
                            0 <= j < nodes@.len() && (#[trigger] nodes@[j]).key@.to_set() == nfa.run(u) && path_word(nodes@, j).len()
                                <= u.len();
                        if j >= head {
                            assert(path_word(nodes@, head as int).len() <= path_word(nodes@, j).len());
                        }
                        assert(!nodes@[j].key@.to_set().contains(nfa.accept));
                    }
                }
            }
            return BackendResult {
                status: BackendStatus::Found,
                witness: Some(witness),
                relation: Some(relation::IN_LANGUAGE.to_owned()),
                visited_states: nodes.len(),
                generated_transitions,
                analysis_ms,
                witness_extraction_ms,
            };
        }
        let sets = nfa.outgoing_sets(&nodes[node_id].key);
        let representatives = representative_chars(&sets);
        proof {
            lemma_subset_sets_scalar(*nfa, key0);
            assert(source_sets(sets@) =~= deref_sets(sets@));
        }
        let mut t: usize = 0;
        while t < representatives.len()
            invariant
                !key0.to_set().contains(nfa.accept),
                nfa.wf(),
                nfa.scalar_edges(),
                limit == if config.max_product_states == 0 {
                    1
                } else {
                    config.max_product_states as int
                },
                1 <= nodes@.len() <= limit,
                node_id == head,
                head < nodes@.len(),
                nodes@[node_id as int].key@ == key0,
                word == path_word(nodes@, node_id as int),
                subset_ok(*nfa, key0, word),
                parents_ok(nodes@),
                nodes@[0].parent is None,
                single_nodes_ok(*nfa, nodes@),
                buckets_ok(buckets@, nodes@.len() as int),
                subsets_filed(buckets@, nodes@),
                subsets_distinct(nodes@),
                forall|i: int| 0 <= i < head ==> #[trigger] single_closed(*nfa, nodes@, i),
                forall|i: int| 0 <= i < head ==> !(#[trigger] nodes@[i]).key@.to_set().contains(nfa.accept),
                depth_sorted(nodes@),
                forall|j: int| 0 <= j < nodes@.len() ==> #[trigger] path_word(nodes@, j).len() <= word.len() + 1,
                t <= representatives@.len(),
                forall|m: int|
                    0 <= m < t ==> has_subset_within(
                        nodes@,
                        nfa.step_set(key0.to_set(), #[trigger] representatives@[m]),
                        word.len() + 1,
                    ),
            decreases representatives@.len() - t,
        {
            let ch = representatives[t];
            generated_transitions = generated_transitions.saturating_add(1);
            let next = nfa.step(&nodes[node_id].key, ch);
            let ghost nset = nfa.step_set(key0.to_set(), ch);
            let slot = subset_slot(&next);
            if find_subset(&buckets, &nodes, slot, &next) {
                proof {
                    let j = choose|j: int| 0 <= j < nodes@.len() && (#[trigger] nodes@[j]).key@ == next@;
                    assert(nodes@[j].key@.to_set() == nset);
                    assert(path_word(nodes@, j).len() <= word.len() + 1);
                    assert(has_subset_within(nodes@, nset, word.len() + 1));
                }
            } else {
                if nodes.len() >= config.max_product_states {
                    proof {
                        lemma_distinct_runs(*nfa, nodes@);
                        assert(path_word(nodes@, 0) =~= Seq::<char>::empty());
                        assert(subset_ok(*nfa, nodes@[0].key@, path_word(nodes@, 0)));
                        if head > 0 {
                            assert(!nodes@[0].key@.to_set().contains(nfa.accept));
                        }
                    }
                    return stopped_result(BackendStatus::StateLimit, nodes.len(), generated_transitions, &started);
                }
                proof {
                    assert forall|j: int| 0 <= j < nodes@.len() implies (#[trigger] nodes@[j]).key@ != next@ by {
                        if nodes@[j].key@ == next@ {
                            assert(filed(buckets@, subset_slot_of(nodes@[j].key@), j));
                            let e = choose|e: int|
                                0 <= e < buckets@[slot as int]@.len() && buckets@[slot as int]@[e] == j;
                            assert(subset_key_is(nodes@, buckets@[slot as int]@[e], next@));
                        }
                    }
                }
                let next_id = nodes.len();
                let ghost before = nodes@;
                let ghost buckets_before = buckets@;
                let node = SearchNode { key: next, parent: Some((node_id, ch)) };
                nodes.push(node);
                bucket_add(&mut buckets, slot, next_id);
                proof {
                    assert(nodes@ == before.push(node));
                    lemma_subsets_filed_push(buckets_before, buckets@, before, node);
                    assert forall|i: int, j: int| 0 <= i < j < nodes@.len() implies (#[trigger] nodes@[i]).key@ != (
                    #[trigger] nodes@[j]).key@ by {
                        assert(nodes@[i] == before[i]);
                        if j < before.len() {
                            assert(nodes@[j] == before[j]);
                        }
                    }
                    assert forall|j: int| 0 <= j < nodes@.len() implies match #[trigger] nodes@[j].parent {
                        Some(edge) => edge.0 < j,
                        None => true,
                    } by {
                        if j < before.len() {
                            assert(nodes@[j] == before[j]);
                        }
                    }
                    lemma_path_word_push(before, node, node_id as int);
                    assert(path_word(nodes@, next_id as int) == path_word(before, node_id as int).push(ch));
                    lemma_run_push(*nfa, word, ch);
                    assert forall|j: int| 0 <= j < nodes@.len() implies #[trigger] subset_ok(
                        *nfa,
                        nodes@[j].key@,
                        path_word(nodes@, j),
                    ) by {
                        if j < before.len() {
                            lemma_path_word_push(before, node, j);
                            assert(nodes@[j] == before[j]);
                            assert(subset_ok(*nfa, before[j].key@, path_word(before, j)));
                        }
                    }
                    assert forall|i: int| 0 <= i < head implies #[trigger] single_closed(*nfa, nodes@, i) by {
                        lemma_single_closed_push(*nfa, before, node, i);
                    }
                    assert forall|i: int| 0 <= i < head implies !(#[trigger] nodes@[i]).key@.to_set().contains(nfa.accept) by {
                        assert(nodes@[i] == before[i]);
                    }
                    assert forall|m: int| 0 <= m < t implies has_subset_within(
                        nodes@,
                        nfa.step_set(key0.to_set(), #[trigger] representatives@[m]),
                        word.len() + 1,
                    ) by {
                        lemma_has_subset_push(before, node, nfa.step_set(key0.to_set(), representatives@[m]), word.len() + 1);
                    }
                    assert forall|j: int| 0 <= j < nodes@.len() implies #[trigger] path_word(nodes@, j).len() <= word.len() + 1 by {
                        if j < before.len() {
                            lemma_path_word_push(before, node, j);
                        }
                    }
                    assert forall|i: int, j: int|
                        0 <= i <= j < nodes@.len() implies #[trigger] path_word(nodes@, i).len() <= #[trigger] path_word(
                        nodes@,
                        j,
                    ).len() by {
                        if j < before.len() {
                            lemma_path_word_push(before, node, i);
                            lemma_path_word_push(before, node, j);
                        } else if i < before.len() {
                            lemma_path_word_push(before, node, i);
                        }
                    }
                    assert(nodes@[next_id as int].key@.to_set() == nset);
                    assert(has_subset_within(nodes@, nset, word.len() + 1));
                    assert(nodes@[node_id as int] == before[node_id as int]);
                    assert(nodes@[0] == before[0]);
                }
            }
            t += 1;
        }
        proof {
            let all = subset_sets(nfa.states@, key0);
            assert forall|c: char| #[trigger] any_has(subset_sets(nfa.states@, nodes@[node_id as int].key@), c as int) implies has_subset_within(
                nodes@,
                nfa.step_set(nodes@[node_id as int].key@.to_set(), c),
                path_word(nodes@, node_id as int).len() + 1,
            ) by {
                let m = choose|m: int| 0 <= m < representatives@.len() && same_membership(all, c as int, #[trigger] representatives@[m] as int);
                let d = representatives@[m];
                lemma_moves_alike(*nfa, key0, c, d);
            }
            assert(single_closed(*nfa, nodes@, node_id as int));
        }
        head += 1;
    }
    proof {
        assert(path_word(nodes@, 0) =~= Seq::<char>::empty());
        assert(subset_ok(*nfa, nodes@[0].key@, path_word(nodes@, 0)));
        assert(has_subset(nodes@, nfa.run(Seq::empty())));
        assert forall|i: int| 0 <= i < nodes@.len() implies forall|k: int| 0 <= k < (#[trigger] nodes@[i]).key@.len() ==> nodes@[i].key@[k] < nfa.states@.len() by {
            assert(subset_ok(*nfa, nodes@[i].key@, path_word(nodes@, i)));
        }
        assert forall|w: Seq<char>| !#[trigger] nfa.accepts(w) by {
            lemma_single_reach(*nfa, nodes@, w);
        }
    }
    stopped_result(BackendStatus::Exhausted, nodes.len(), generated_transitions, &started)
}


/// Why an analysis produced no report.
#[derive(Debug)]
pub enum AnalyzeError {
    /// A pattern was refused as malformed.
    Input(FrontendError),
    /// A witness failed its replay, or the engine was misused.
    Internal(String),
}

/// An analysis engine: decides a query on compiled automata.
///
/// Engines are interchangeable; every witness an engine returns is replayed
/// on both automata before a report carries it.
pub trait RelationBackend {
    fn name(&self) -> &'static str;

    fn version(&self) -> &'static str;

    fn analyze_binary(&self, query: Query, left: &Nfa, right: &Nfa, config: &Config) -> BackendResult
        requires
            left.wf(),
            right.wf(),
            left.scalar_edges(),
            right.scalar_edges(),
    ;

    fn analyze_empty(&self, nfa: &Nfa, config: &Config) -> BackendResult
        requires
            nfa.wf(),
            nfa.scalar_edges(),
    ;

    /// Decide `query` between two parsed expressions, given the automata
    /// built from them. An engine that works on expressions overrides this;
    /// by default the automata decide.
    fn analyze_binary_expr(
        &self,
        query: Query,
        left: &Expr,
        right: &Expr,
        left_nfa: &Nfa,
        right_nfa: &Nfa,
        config: &Config,
    ) -> BackendResult
        requires
            left_nfa.wf(),
            right_nfa.wf(),
            left_nfa.scalar_edges(),
            right_nfa.scalar_edges(),
            forall|w: Seq<char>| #[trigger] left_nfa.accepts(w) == matches_expr(*left, w),
            forall|w: Seq<char>| #[trigger] right_nfa.accepts(w) == matches_expr(*right, w),
    {
        self.analyze_binary(query, left_nfa, right_nfa, config)
    }

    /// Decide whether a parsed expression's language is empty, given the
    /// automaton built from it. By default the automaton decides.
    fn analyze_empty_expr(&self, expr: &Expr, nfa: &Nfa, config: &Config) -> BackendResult
        requires
            nfa.wf(),
            nfa.scalar_edges(),
            forall|w: Seq<char>| #[trigger] nfa.accepts(w) == matches_expr(*expr, w),
    {
        self.analyze_empty(nfa, config)
    }
}

/// The default engine: the on-the-fly subset searches of this module.
#[derive(Clone, Copy, Debug)]
pub struct AutomataBackend;

impl Default for AutomataBackend {
    fn default() -> (r: Self) {
        AutomataBackend
    }
}

impl RelationBackend for AutomataBackend {
    fn name(&self) -> (r: &'static str)
        ensures
            r@ == "in_process_automata"@,
    {
        "in_process_automata"
    }

    fn version(&self) -> (r: &'static str)
        ensures
            r@ == TOOL_VERSION@,
    {
        TOOL_VERSION
    }

    fn analyze_binary(&self, query: Query, left: &Nfa, right: &Nfa, config: &Config) -> (r: BackendResult)
        ensures
            crate::laws::sound_outcome(query, *left, *right, r),
            (r.status == BackendStatus::Found) == (r.witness is Some),
            r.status == BackendStatus::Found ==> (r.witness matches Some(w) && r.relation matches Some(rel) && relation_of(
                query,
                left.accepts(w@),
                right.accepts(w@),
            ) == Some(rel@)),
            r.status == BackendStatus::Exhausted ==> forall|w: Seq<char>|
                #[trigger] relation_of(query, left.accepts(w), right.accepts(w)) is None,
            r.status == BackendStatus::Found ==> (r.witness matches Some(w) && forall|u: Seq<char>|
                u.len() < w@.len() ==> #[trigger] relation_of(query, left.accepts(u), right.accepts(u)) is None),
            r.status == BackendStatus::StateLimit ==> r.visited_states >= config.max_product_states,
            r.visited_states <= state_budget(config.max_product_states),
            r.status == BackendStatus::StateLimit ==> exists|ws: Seq<Seq<char>>|
                ws.len() >= config.max_product_states && forall|i: int, j: int|
                    0 <= i < j < ws.len() ==> left.run(#[trigger] ws[i]) != left.run(#[trigger] ws[j]) || right.run(ws[i])
                        != right.run(ws[j]),
    {
        search_product(query, left, right, config, &WallClock::start())
    }

    fn analyze_empty(&self, nfa: &Nfa, config: &Config) -> (r: BackendResult)
        ensures
            (r.status == BackendStatus::Found) == (r.witness is Some),
            r.status == BackendStatus::Found ==> (r.witness matches Some(w) && nfa.accepts(w@)),
            r.status == BackendStatus::Exhausted ==> forall|w: Seq<char>| !#[trigger] nfa.accepts(w),
            r.status == BackendStatus::Found ==> (r.witness matches Some(w) && forall|u: Seq<char>|
                u.len() < w@.len() ==> !#[trigger] nfa.accepts(u)),
            r.status == BackendStatus::StateLimit ==> r.visited_states >= config.max_product_states,
            r.visited_states <= state_budget(config.max_product_states),
            r.status == BackendStatus::StateLimit ==> exists|ws: Seq<Seq<char>>|
                ws.len() >= config.max_product_states && forall|i: int, j: int|
                    0 <= i < j < ws.len() ==> nfa.run(#[trigger] ws[i]) != nfa.run(#[trigger] ws[j]),
    {
        search_single(nfa, config, &WallClock::start())
    }

    fn analyze_binary_expr(
        &self,
        query: Query,
        left: &Expr,
        right: &Expr,
        left_nfa: &Nfa,
        right_nfa: &Nfa,
        config: &Config,
    ) -> (r: BackendResult)
        ensures
            (r.status == BackendStatus::Found) == (r.witness is Some),
            r.status == BackendStatus::Found ==> (r.witness matches Some(w) && r.relation matches Some(rel) && relation_of(
                query,
                matches_expr(*left, w@),
                matches_expr(*right, w@),
            ) == Some(rel@)),
            r.status == BackendStatus::Exhausted ==> forall|w: Seq<char>|
                #[trigger] relation_of(query, matches_expr(*left, w), matches_expr(*right, w)) is None,
            r.status == BackendStatus::Found ==> (r.witness matches Some(w) && forall|u: Seq<char>|
                u.len() < w@.len() ==> #[trigger] relation_of(query, matches_expr(*left, u), matches_expr(*right, u)) is None),
            r.status == BackendStatus::StateLimit ==> r.visited_states >= config.max_product_states,
            r.visited_states <= state_budget(config.max_product_states),
    {
        let r = search_product(query, left_nfa, right_nfa, config, &WallClock::start());
        proof {
            if r.status == BackendStatus::Found {
                let w = r.witness->0;
                assert(left_nfa.accepts(w@) == matches_expr(*left, w@));
                assert(right_nfa.accepts(w@) == matches_expr(*right, w@));
                assert forall|u: Seq<char>| u.len() < w@.len() implies #[trigger] relation_of(
                    query,
                    matches_expr(*left, u),
                    matches_expr(*right, u),
                ) is None by {
                    assert(left_nfa.accepts(u) == matches_expr(*left, u));
                    assert(right_nfa.accepts(u) == matches_expr(*right, u));
                    assert(relation_of(query, left_nfa.accepts(u), right_nfa.accepts(u)) is None);
                }
            }
            if r.status == BackendStatus::Exhausted {
                assert forall|w: Seq<char>| #[trigger] relation_of(query, matches_expr(*left, w), matches_expr(*right, w)) is None by {
                    assert(left_nfa.accepts(w) == matches_expr(*left, w));
                    assert(right_nfa.accepts(w) == matches_expr(*right, w));
                    assert(relation_of(query, left_nfa.accepts(w), right_nfa.accepts(w)) is None);
                }
            }
        }
        r
    }

    fn analyze_empty_expr(&self, expr: &Expr, nfa: &Nfa, config: &Config) -> (r: BackendResult)
        ensures
            (r.status == BackendStatus::Found) == (r.witness is Some),
            r.status == BackendStatus::Found ==> (r.witness matches Some(w) && matches_expr(*expr, w@)),
            r.status == BackendStatus::Exhausted ==> forall|w: Seq<char>| !#[trigger] matches_expr(*expr, w),
            r.status == BackendStatus::Found ==> (r.witness matches Some(w) && forall|u: Seq<char>|
                u.len() < w@.len() ==> !#[trigger] matches_expr(*expr, u)),
            r.status == BackendStatus::StateLimit ==> r.visited_states >= config.max_product_states,
            r.visited_states <= state_budget(config.max_product_states),
    {
        let r = search_single(nfa, config, &WallClock::start());
        proof {
            if r.status == BackendStatus::Found {
                let w = r.witness->0;
                assert(nfa.accepts(w@) == matches_expr(*expr, w@));
                assert forall|u: Seq<char>| u.len() < w@.len() implies !#[trigger] matches_expr(*expr, u) by {
                    assert(nfa.accepts(u) == matches_expr(*expr, u));
                }
            }
            if r.status == BackendStatus::Exhausted {
                assert forall|w: Seq<char>| !#[trigger] matches_expr(*expr, w) by {
                    assert(nfa.accepts(w) == matches_expr(*expr, w));
                }
            }
        }
        r
    }
}

/// The verdict a binary query gets from how its search ended.
pub open spec fn binary_verdict(query: Query, status: BackendStatus) -> Verdict {
    match status {
        BackendStatus::Found => if query == Query::Overlap {
            Verdict::Yes
        } else {
            Verdict::No
        },
        BackendStatus::Exhausted => if query == Query::Overlap {
            Verdict::No
        } else {
            Verdict::Yes
        },
        _ => Verdict::Unknown,
    }
}

/// The diagnostic id of a binary query from how its search ended.
pub open spec fn binary_id(query: Query, status: BackendStatus) -> Seq<char> {
    match status {
        BackendStatus::Found => match query {
            Query::Overlap => "RR_OVERLAP_NONEMPTY"@,
            Query::Includes => "RR_INCLUDE_COUNTEREXAMPLE"@,
            _ => "RR_EQUIV_COUNTEREXAMPLE"@,
        },
        BackendStatus::Exhausted => match query {
            Query::Overlap => "RR_OVERLAP_EMPTY"@,
            Query::Includes => "RR_INCLUDED"@,
            _ => "RR_EQUIVALENT"@,
        },
        BackendStatus::StateLimit => "RR_STATE_LIMIT"@,
        BackendStatus::Timeout => "RR_TIMEOUT"@,
    }
}

/// The diagnostic message of a binary query from how its search ended.
pub open spec fn binary_message(query: Query, status: BackendStatus) -> Seq<char> {
    match status {
        BackendStatus::Found => match query {
            Query::Overlap => "the two languages overlap"@,
            Query::Includes => "the left language is not included in the right language"@,
            _ => "the two languages are not equivalent"@,
        },
        BackendStatus::Exhausted => match query {
            Query::Overlap => "the two languages are disjoint"@,
            Query::Includes => "the left language is included in the right language"@,
            _ => "the two languages are equivalent"@,
        },
        BackendStatus::StateLimit => "analysis reached the configured product-state limit"@,
        BackendStatus::Timeout => "analysis reached the configured timeout"@,
    }
}

/// The verdict an emptiness query gets from how its search ended.
pub open spec fn empty_verdict(status: BackendStatus) -> Verdict {
    match status {
        BackendStatus::Found => Verdict::No,
        BackendStatus::Exhausted => Verdict::Yes,
        _ => Verdict::Unknown,
    }
}

pub open spec fn empty_id(status: BackendStatus) -> Seq<char> {
    match status {
        BackendStatus::Found => "RR_EMPTY_WITNESS"@,
        BackendStatus::Exhausted => "RR_EMPTY"@,
        BackendStatus::StateLimit => "RR_STATE_LIMIT"@,
        BackendStatus::Timeout => "RR_TIMEOUT"@,
    }
}

pub open spec fn empty_message(status: BackendStatus) -> Seq<char> {
    match status {
        BackendStatus::Found => "the language is not empty"@,
        BackendStatus::Exhausted => "the language is empty"@,
        BackendStatus::StateLimit => "analysis reached the configured state limit"@,
        BackendStatus::Timeout => "analysis reached the configured timeout"@,
    }
}

/// The text of a boolean.
pub open spec fn bool_text(b: bool) -> Seq<char> {
    if b {
        "true"@
    } else {
        "false"@
    }
}

fn bool_str(b: bool) -> (r: &'static str)
    ensures
        r@ == bool_text(b),
{
    if b {
        "true"
    } else {
        "false"
    }
}

/// The lower-case name of an alphabet.
pub open spec fn alphabet_text(a: Alphabet) -> Seq<char> {
    match a {
        Alphabet::Ascii => "ascii"@,
        Alphabet::Unicode => "unicode"@,
    }
}

/// The assumptions every report lists, one line each.
pub open spec fn assumption_lines(config: Config) -> Seq<Seq<char>> {
    seq![
        "regexes use full-string matching semantics"@,
        "alphabet mode is "@ + alphabet_text(config.alphabet),
        "product-state limit is "@ + crate::text::decimal(config.max_product_states as nat),
        "timeout is "@ + crate::text::decimal(config.timeout_ms as nat) + " ms"@,
        "max_repeat is "@ + crate::text::decimal(config.max_repeat as nat),
        "dot_matches_newline is "@ + bool_text(config.dot_matches_newline),
    ]
}

/// The strings of a list, as character sequences.
pub open spec fn texts(v: Seq<String>) -> Seq<Seq<char>> {
    v.map_values(|s: String| s@)
}

/// The assumptions under which a verdict holds.
fn assumptions(config: &Config) -> (r: Vec<String>)
    ensures
        texts(r@) == assumption_lines(*config),
{
    let mut out: Vec<String> = Vec::new();
    out.push("regexes use full-string matching semantics".to_owned());
    let mut alphabet = "alphabet mode is ".to_owned();
    match config.alphabet {
        Alphabet::Ascii => alphabet.append("ascii"),
        Alphabet::Unicode => alphabet.append("unicode"),
    }
    out.push(alphabet);
    let mut limit = "product-state limit is ".to_owned();
    limit.append(display_usize(config.max_product_states).as_str());
    out.push(limit);
    let mut timeout = "timeout is ".to_owned();
    timeout.append(display_u64(config.timeout_ms).as_str());
    timeout.append(" ms");
    out.push(timeout);
    let mut repeat = "max_repeat is ".to_owned();
    repeat.append(display_usize(config.max_repeat).as_str());
    out.push(repeat);
    let mut dot = "dot_matches_newline is ".to_owned();
    dot.append(bool_str(config.dot_matches_newline));
    out.push(dot);
    proof {
        assert(texts(out@) =~= assumption_lines(*config));
    }
    out
}

/// The matching semantics every report states.
fn semantics(config: &Config) -> (r: Semantics)
    ensures
        r.match_mode@ == "full_string"@,
        r.witness_order@ == "shortest_codepoint_length_then_lowest_scalar_value"@,
        r.shorthand_classes@ == "ascii_defined"@,
        r.dot_matches_newline == config.dot_matches_newline,
        // Completed verdicts are exact; resource limits stop with UNKNOWN
        // rather than turning the analysis into a bounded proof.
        !r.bounded,
{
    Semantics {
        match_mode: "full_string",
        witness_order: "shortest_codepoint_length_then_lowest_scalar_value",
        shorthand_classes: "ascii_defined",
        dot_matches_newline: config.dot_matches_newline,
        bounded: false,
    }
}

/// The sum of the phases, or the largest value when it would not fit.
fn settle_total(t: &mut Timings)
    ensures
        final(t).total_ms == if phase_sum(*old(t)) <= u128::MAX {
            phase_sum(*old(t))
        } else {
            u128::MAX as int
        },
        final(t).parsing_ms == old(t).parsing_ms,
        final(t).automata_build_ms == old(t).automata_build_ms,
        final(t).backend_ms == old(t).backend_ms,
        final(t).witness_extraction_ms == old(t).witness_extraction_ms,
        final(t).witness_validation_ms == old(t).witness_validation_ms,
        final(t).rendering_ms == old(t).rendering_ms,
{
    let sum = t.parsing_ms.checked_add(t.automata_build_ms);
    let sum = match sum {
        Some(v) => v.checked_add(t.backend_ms),
        None => None,
    };
    let sum = match sum {
        Some(v) => v.checked_add(t.witness_extraction_ms),
        None => None,
    };
    let sum = match sum {
        Some(v) => v.checked_add(t.witness_validation_ms),
        None => None,
    };
    let sum = match sum {
        Some(v) => v.checked_add(t.rendering_ms),
        None => None,
    };
    match sum {
        Some(v) => {
            t.refresh_total();
        },
        None => {
            t.total_ms = u128::MAX;
        },
    }
}

/// The report common to every finished search.
#[verifier::rlimit(30)]
fn base_report<B: RelationBackend + ?Sized>(
    query: Query,
    verdict: Verdict,
    witness: Option<Witness>,
    id: &str,
    message: &str,
    left_states: usize,
    right_states: Option<usize>,
    outcome: BackendResult,
    config: &Config,
    parse_ms: u128,
    build_ms: u128,
    backend: &B,
) -> (r: Report)
    ensures
        r.schema_version@ == SCHEMA_VERSION@,
        r.tool_version@ == TOOL_VERSION@,
        r.query == query,
        r.verdict == verdict,
        r.witness == witness,
        r.diagnostic.id@ == id@,
        r.diagnostic.message@ == message@,
        r.diagnostic.input is None,
        r.diagnostic.error is None,
        texts(r.diagnostic.assumptions@) == assumption_lines(*config),
        r.statistics.left_nfa_states == left_states,
        r.statistics.right_nfa_states == right_states,
        r.statistics.visited_product_states == outcome.visited_states,
        r.statistics.generated_transitions == outcome.generated_transitions,
        r.statistics.max_product_states == config.max_product_states,
        r.statistics.timeout_ms == config.timeout_ms,
        r.statistics.alphabet == config.alphabet,
        r.statistics.timings.parsing_ms == parse_ms,
        r.statistics.timings.automata_build_ms == build_ms,
        r.statistics.timings.backend_ms == outcome.analysis_ms,
        r.statistics.timings.witness_extraction_ms == outcome.witness_extraction_ms,
        r.statistics.timings.witness_validation_ms == 0,
        r.statistics.timings.rendering_ms == 0,
        phase_sum(r.statistics.timings) <= u128::MAX ==> r.statistics.timings.total_ms == phase_sum(r.statistics.timings),
        r.semantics.dot_matches_newline == config.dot_matches_newline,
        !r.semantics.bounded,
{
    let mut timings = Timings {
        parsing_ms: parse_ms,
        automata_build_ms: build_ms,
        backend_ms: outcome.analysis_ms,
        witness_extraction_ms: outcome.witness_extraction_ms,
        witness_validation_ms: 0,
        rendering_ms: 0,
        total_ms: 0,
    };
    settle_total(&mut timings);
    Report {
        schema_version: SCHEMA_VERSION,
        tool_version: TOOL_VERSION,
        backend: BackendInfo { name: backend.name().to_owned(), version: backend.version().to_owned() },
        query,
        verdict,
        witness,
        diagnostic: Diagnostic {
            id: id.to_owned(),
            message: message.to_owned(),
            input: None,
            error: None,
            assumptions: assumptions(config),
        },
        statistics: Statistics {
            left_nfa_states: left_states,
            right_nfa_states: right_states,
            visited_product_states: outcome.visited_states,
            generated_transitions: outcome.generated_transitions,
            max_product_states: config.max_product_states,
            timeout_ms: config.timeout_ms,
            alphabet: config.alphabet,
            timings,
        },
        semantics: semantics(config),
    }
}

/// The text a found witness carries, and the relation it claims.
pub open spec fn outcome_witness_text(outcome: BackendResult) -> Seq<char> {
    match outcome.witness {
        Some(w) => w@,
        None => Seq::empty(),
    }
}

pub open spec fn outcome_relation_text(outcome: BackendResult) -> Seq<char> {
    match outcome.relation {
        Some(r) => r@,
        None => "counterexample"@,
    }
}

/// The witness of a found search.
fn outcome_witness(outcome: &BackendResult) -> (r: Witness)
    ensures
        r.value@ == outcome_witness_text(*outcome),
        r.relation@ == outcome_relation_text(*outcome),
        r.codepoints == outcome_witness_text(*outcome).len(),
{
    let value = match &outcome.witness {
        Some(w) => w.clone(),
        None => String::new(),
    };
    let relation = match &outcome.relation {
        Some(rel) => rel.as_str(),
        None => "counterexample",
    };
    Witness::new(value, relation)
}

/// The report of a binary query from how its search ended.
pub fn report_from_binary_outcome<B: RelationBackend + ?Sized>(
    query: Query,
    left: &Nfa,
    right: &Nfa,
    outcome: BackendResult,
    config: &Config,
    parse_ms: u128,
    build_ms: u128,
    backend: &B,
) -> (r: Report)
    requires
        query != Query::Empty,
    ensures
        r.query == query,
        r.verdict == binary_verdict(query, outcome.status),
        r.diagnostic.id@ == binary_id(query, outcome.status),
        r.diagnostic.message@ == binary_message(query, outcome.status),
        outcome.status == BackendStatus::Found <==> r.witness is Some,
        r.witness matches Some(w) ==> w.value@ == outcome_witness_text(outcome) && w.relation@ == outcome_relation_text(
            outcome,
        ) && w.codepoints == w.value@.len(),
        r.statistics.left_nfa_states == left.states@.len(),
        r.statistics.right_nfa_states == Some(right.states@.len() as usize),
        r.statistics.max_product_states == config.max_product_states,
        r.statistics.timeout_ms == config.timeout_ms,
        r.statistics.alphabet == config.alphabet,
        r.statistics.timings.parsing_ms == parse_ms,
        r.statistics.timings.automata_build_ms == build_ms,
        r.semantics.dot_matches_newline == config.dot_matches_newline,
        r.statistics.visited_product_states == outcome.visited_states,
        r.statistics.generated_transitions == outcome.generated_transitions,
        r.statistics.timings.backend_ms == outcome.analysis_ms,
        r.statistics.timings.witness_extraction_ms == outcome.witness_extraction_ms,
        r.statistics.timings.witness_validation_ms == 0,
        r.statistics.timings.rendering_ms == 0,
        r.diagnostic.input is None,
        texts(r.diagnostic.assumptions@) == assumption_lines(*config),
        phase_sum(r.statistics.timings) <= u128::MAX ==> r.statistics.timings.total_ms == phase_sum(r.statistics.timings),
{
    let witness = match outcome.status {
        BackendStatus::Found => Some(outcome_witness(&outcome)),
        _ => None,
    };
    let (verdict, id, message): (Verdict, &str, &str) = match outcome.status {
        BackendStatus::Found => match query {
            Query::Overlap => (Verdict::Yes, "RR_OVERLAP_NONEMPTY", "the two languages overlap"),
            Query::Includes => (
                Verdict::No,
                "RR_INCLUDE_COUNTEREXAMPLE",
                "the left language is not included in the right language",
            ),
            _ => (Verdict::No, "RR_EQUIV_COUNTEREXAMPLE", "the two languages are not equivalent"),
        },
        BackendStatus::Exhausted => match query {
            Query::Overlap => (Verdict::No, "RR_OVERLAP_EMPTY", "the two languages are disjoint"),
            Query::Includes => (Verdict::Yes, "RR_INCLUDED", "the left language is included in the right language"),
            _ => (Verdict::Yes, "RR_EQUIVALENT", "the two languages are equivalent"),
        },
        BackendStatus::StateLimit => (
            Verdict::Unknown,
            "RR_STATE_LIMIT",
            "analysis reached the configured product-state limit",
        ),
        BackendStatus::Timeout => (Verdict::Unknown, "RR_TIMEOUT", "analysis reached the configured timeout"),
    };
    base_report(
        query,
        verdict,
        witness,
        id,
        message,
        left.states.len(),
        Some(right.states.len()),
        outcome,
        config,
        parse_ms,
        build_ms,
        backend,
    )
}

/// The report of an emptiness query from how its search ended.
pub fn report_from_empty_outcome<B: RelationBackend + ?Sized>(
    nfa: &Nfa,
    outcome: BackendResult,
    config: &Config,
    parse_ms: u128,
    build_ms: u128,
    backend: &B,
) -> (r: Report)
    ensures
        r.query == Query::Empty,
        r.verdict == empty_verdict(outcome.status),
        r.diagnostic.id@ == empty_id(outcome.status),
        r.diagnostic.message@ == empty_message(outcome.status),
        outcome.status == BackendStatus::Found <==> r.witness is Some,
        r.witness matches Some(w) ==> w.value@ == outcome_witness_text(outcome) && w.relation@ == relation::IN_LANGUAGE@
            && w.codepoints == w.value@.len(),
        r.statistics.left_nfa_states == nfa.states@.len(),
        r.statistics.right_nfa_states is None,
        r.statistics.max_product_states == config.max_product_states,
        r.statistics.timeout_ms == config.timeout_ms,
        r.statistics.alphabet == config.alphabet,
        r.statistics.timings.parsing_ms == parse_ms,
        r.statistics.timings.automata_build_ms == build_ms,
        r.semantics.dot_matches_newline == config.dot_matches_newline,
        r.statistics.visited_product_states == outcome.visited_states,
        r.statistics.generated_transitions == outcome.generated_transitions,
        r.statistics.timings.backend_ms == outcome.analysis_ms,
        r.statistics.timings.witness_extraction_ms == outcome.witness_extraction_ms,
        r.statistics.timings.witness_validation_ms == 0,
        r.statistics.timings.rendering_ms == 0,
        r.diagnostic.input is None,
        texts(r.diagnostic.assumptions@) == assumption_lines(*config),
        phase_sum(r.statistics.timings) <= u128::MAX ==> r.statistics.timings.total_ms == phase_sum(r.statistics.timings),
{
    let witness = match outcome.status {
        BackendStatus::Found => {
            let value = match &outcome.witness {
                Some(w) => w.clone(),
                None => String::new(),
            };
            Some(Witness::new(value, relation::IN_LANGUAGE))
        },
        _ => None,
    };
    let (verdict, id, message): (Verdict, &str, &str) = match outcome.status {
        BackendStatus::Found => (Verdict::No, "RR_EMPTY_WITNESS", "the language is not empty"),
        BackendStatus::Exhausted => (Verdict::Yes, "RR_EMPTY", "the language is empty"),
        BackendStatus::StateLimit => (
            Verdict::Unknown,
            "RR_STATE_LIMIT",
            "analysis reached the configured state limit",
        ),
        BackendStatus::Timeout => (Verdict::Unknown, "RR_TIMEOUT", "analysis reached the configured timeout"),
    };
    base_report(
        Query::Empty,
        verdict,
        witness,
        id,
        message,
        nfa.states.len(),
        None,
        outcome,
        config,
        parse_ms,
        build_ms,
        backend,
    )
}


/// The report for a pattern outside the supported subset.
fn unsupported_report<B: RelationBackend + ?Sized>(
    query: Query,
    input: &str,
    error: FrontendError,
    config: &Config,
    parse_ms: u128,
    backend: &B,
) -> (r: Report)
    ensures
        r.query == query,
        r.verdict == Verdict::Unsupported,
        r.witness is None,
        r.diagnostic.id@ == "RR_UNSUPPORTED"@,
        r.diagnostic.message@ == error.message@,
        r.diagnostic.input matches Some(i) && i@ == input@,
        r.diagnostic.error matches Some(e) && e.kind == error.kind && e.span_start == error.span_start && e.span_end
            == error.span_end,
        texts(r.diagnostic.assumptions@) == assumption_lines(*config),
        r.statistics.left_nfa_states == 0,
        r.statistics.right_nfa_states is None,
        r.statistics.visited_product_states == 0,
        r.statistics.generated_transitions == 0,
        r.statistics.timings.parsing_ms == parse_ms,
        r.statistics.timings.backend_ms == 0,
        r.statistics.timings.total_ms == parse_ms,
{
    let mut timings = Timings {
        parsing_ms: parse_ms,
        automata_build_ms: 0,
        backend_ms: 0,
        witness_extraction_ms: 0,
        witness_validation_ms: 0,
        rendering_ms: 0,
        total_ms: 0,
    };
    timings.refresh_total();
    let message = error.message.clone();
    Report {
        schema_version: SCHEMA_VERSION,
        tool_version: TOOL_VERSION,
        backend: BackendInfo { name: backend.name().to_owned(), version: backend.version().to_owned() },
        query,
        verdict: Verdict::Unsupported,
        witness: None,
        diagnostic: Diagnostic {
            id: "RR_UNSUPPORTED".to_owned(),
            message,
            input: Some(input.to_owned()),
            error: Some(error),
            assumptions: assumptions(config),
        },
        statistics: Statistics {
            left_nfa_states: 0,
            right_nfa_states: None,
            visited_product_states: 0,
            generated_transitions: 0,
            max_product_states: config.max_product_states,
            timeout_ms: config.timeout_ms,
            alphabet: config.alphabet,
            timings,
        },
        semantics: semantics(config),
    }
}

/// Everything but the witness and the last two timings is unchanged.
pub open spec fn same_report_but_witness(a: Report, b: Report) -> bool {
    &&& a.schema_version == b.schema_version
    &&& a.tool_version == b.tool_version
    &&& a.backend == b.backend
    &&& a.query == b.query
    &&& a.verdict == b.verdict
    &&& a.diagnostic == b.diagnostic
    &&& a.semantics == b.semantics
    &&& a.statistics.left_nfa_states == b.statistics.left_nfa_states
    &&& a.statistics.right_nfa_states == b.statistics.right_nfa_states
    &&& a.statistics.visited_product_states == b.statistics.visited_product_states
    &&& a.statistics.generated_transitions == b.statistics.generated_transitions
    &&& a.statistics.max_product_states == b.statistics.max_product_states
    &&& a.statistics.timeout_ms == b.statistics.timeout_ms
    &&& a.statistics.alphabet == b.statistics.alphabet
    &&& a.statistics.timings.parsing_ms == b.statistics.timings.parsing_ms
    &&& a.statistics.timings.automata_build_ms == b.statistics.timings.automata_build_ms
    &&& a.statistics.timings.backend_ms == b.statistics.timings.backend_ms
    &&& a.statistics.timings.witness_extraction_ms == b.statistics.timings.witness_extraction_ms
    &&& a.statistics.timings.rendering_ms == b.statistics.timings.rendering_ms
}

/// The message of a witness that failed its replay on two automata.
fn replay_message(value: &str, left_matches: bool, right_matches: bool) -> (r: String)
    ensures
        r@ == "witness "@ + crate::text::str_debug(value@) + " replayed as left="@ + bool_text(left_matches) + ", right="@
            + bool_text(right_matches),
{
    let mut out = "witness ".to_owned();
    out.append(debug_str(value).as_str());
    out.append(" replayed as left=");
    out.append(bool_str(left_matches));
    out.append(", right=");
    out.append(bool_str(right_matches));
    out
}

/// Replay the witness of a binary report on both automata: it must settle
/// the query, and its relation is set from what the replay shows.
pub fn validate_binary_witness(report: &mut Report, query: Query, left: &Nfa, right: &Nfa) -> (r: Result<
    (),
    AnalyzeError,
>)
    requires
        left.wf(),
        right.wf(),
    ensures
        old(report).witness is None ==> r is Ok && *final(report) == *old(report),
        old(report).witness matches Some(w) ==> match relation_of(query, left.accepts(w.value@), right.accepts(w.value@)) {
            Some(rel) => r is Ok && (final(report).witness matches Some(v) && v.value@ == w.value@ && v.relation@ == rel
                && v.codepoints == w.codepoints) && same_report_but_witness(*final(report), *old(report)) && (phase_sum(
                final(report).statistics.timings,
            ) <= u128::MAX ==> final(report).statistics.timings.total_ms == phase_sum(final(report).statistics.timings)),
            None => r matches Err(AnalyzeError::Internal(_)),
        },
{
    let (value, codepoints) = match &report.witness {
        Some(w) => (w.value.clone(), w.codepoints),
        None => {
            return Ok(());
        },
    };
    let started = instant_now();
    let left_matches = left.matches(value.as_str());
    let right_matches = right.matches(value.as_str());
    match classify_relation(query, left_matches, right_matches) {
        None => Err(AnalyzeError::Internal(replay_message(value.as_str(), left_matches, right_matches))),
        Some(rel) => {
            report.witness = Some(Witness { value, relation: rel.to_owned(), codepoints });
            let mut timings = report.statistics.timings;
            timings.witness_validation_ms = elapsed_ms(&started);
            settle_total(&mut timings);
            report.statistics.timings = timings;
            Ok(())
        },
    }
}

/// Replay the witness of an emptiness report: the automaton must accept it.
pub fn validate_empty_witness(report: &mut Report, nfa: &Nfa) -> (r: Result<(), AnalyzeError>)
    requires
        nfa.wf(),
    ensures
        old(report).witness is None ==> r is Ok && *final(report) == *old(report),
        old(report).witness matches Some(w) ==> if nfa.accepts(w.value@) {
            r is Ok && (final(report).witness matches Some(v) && v.value@ == w.value@ && v.relation@ == relation::IN_LANGUAGE@
                && v.codepoints == w.codepoints) && same_report_but_witness(*final(report), *old(report)) && (phase_sum(
                final(report).statistics.timings,
            ) <= u128::MAX ==> final(report).statistics.timings.total_ms == phase_sum(final(report).statistics.timings))
        } else {
            r matches Err(AnalyzeError::Internal(_))
        },
{
    let (value, codepoints) = match &report.witness {
        Some(w) => (w.value.clone(), w.codepoints),
        None => {
            return Ok(());
        },
    };
    let started = instant_now();
    if !nfa.matches(value.as_str()) {
        let mut message = "witness ".to_owned();
        message.append(debug_str(value.as_str()).as_str());
        message.append(" did not replay in the language");
        return Err(AnalyzeError::Internal(message));
    }
    report.witness = Some(Witness { value, relation: relation::IN_LANGUAGE.to_owned(), codepoints });
    let mut timings = report.statistics.timings;
    timings.witness_validation_ms = elapsed_ms(&started);
    settle_total(&mut timings);
    report.statistics.timings = timings;
    Ok(())
}

/// Decide `query` (overlap, inclusion or equivalence) between the
/// languages of two patterns with the default engine.
pub fn analyze_binary(query: Query, left_pattern: &str, right_pattern: &str, config: &Config) -> (r: Result<
    Report,
    AnalyzeError,
>)
    ensures
        query == Query::Empty ==> r matches Err(AnalyzeError::Internal(_)),
        r matches Err(AnalyzeError::Input(e)) ==> e.kind == FrontendErrorKind::Syntax,
        r matches Ok(rep) ==> rep.query == query,
        r matches Ok(rep) ==> (rep.verdict == Verdict::Unsupported ==> rep.witness is None && rep.diagnostic.input is Some),
        match r {
            Ok(rep) => match rep.witness {
                Some(w) => exists|a: bool, b: bool| relation_of(query, a, b) == Some(w.relation@),
                None => true,
            },
            Err(_) => true,
        },
        plain_text(left_pattern@, config.alphabet) && plain_text(right_pattern@, config.alphabet) ==> match r {
            Ok(rep) => rep.witness matches Some(w) ==> relation_of(
                query,
                w.value@ == left_pattern@,
                w.value@ == right_pattern@,
            ) == Some(w.relation@),
            Err(_) => query == Query::Empty,
        },
        query != Query::Empty ==> (r is Ok || r matches Err(AnalyzeError::Input(_))),
        r matches Ok(rep) ==> (rep.verdict == Verdict::Unsupported ==> rep.diagnostic.id@ == "RR_UNSUPPORTED"@ && (
        rep.diagnostic.input matches Some(i) && (i@ == "left"@ || i@ == "right"@))),
        r matches Ok(rep) ==> (rep.verdict == Verdict::Yes ==> pattern_relation_holds(query, left_pattern@, right_pattern@, *config)),
        r matches Ok(rep) ==> (rep.verdict == Verdict::No ==> !pattern_relation_holds(query, left_pattern@, right_pattern@, *config)),
        r matches Ok(rep) ==> (rep.verdict == Verdict::Unknown ==> (rep.diagnostic.id@ == "RR_STATE_LIMIT"@
            && rep.statistics.visited_product_states >= config.max_product_states && rep.statistics.visited_product_states
            <= state_budget(config.max_product_states) && relation_of(
            query,
            pattern_matches(left_pattern@, *config, Seq::empty()),
            pattern_matches(right_pattern@, *config, Seq::empty()),
        ) is None) || rep.diagnostic.id@ == "RR_TIMEOUT"@),
        r matches Ok(rep) ==> (rep.witness matches Some(w) ==> w.value@.len() == 0 || w.value@.len()
            < config.max_product_states),
        r matches Ok(rep) ==> (rep.witness is Some <==> rep.verdict == binary_verdict(query, BackendStatus::Found)),
        r matches Ok(rep) ==> (rep.witness matches Some(w) ==> w.codepoints == w.value@.len()),
        r matches Ok(rep) ==> (rep.witness matches Some(w) ==> relation_of(
            query,
            pattern_matches(left_pattern@, *config, w.value@),
            pattern_matches(right_pattern@, *config, w.value@),
        ) == Some(w.relation@) && forall|u: Seq<char>|
            u.len() < w.value@.len() ==> #[trigger] relation_of(
                query,
                pattern_matches(left_pattern@, *config, u),
                pattern_matches(right_pattern@, *config, u),
            ) is None),
        query != Query::Empty && pattern_accepted(left_pattern@, *config) && pattern_accepted(right_pattern@, *config) ==> (r matches Ok(
            rep,
        ) && rep.verdict != Verdict::Unsupported),
        r matches Err(AnalyzeError::Input(_)) ==> !pattern_accepted(left_pattern@, *config) || !pattern_accepted(right_pattern@, *config),
        r matches Ok(rep) ==> (rep.verdict == Verdict::Unsupported ==> (rep.diagnostic.input matches Some(i) && (i@ == "left"@
            ==> !pattern_accepted(left_pattern@, *config)) && (i@ == "right"@ ==> !pattern_accepted(right_pattern@, *config)))),
{
    if query == Query::Empty {
        return Err(AnalyzeError::Internal("binary analysis called with the empty-language query".to_owned()));
    }
    let parse_started = instant_now();
    let left_expr = match parse(left_pattern, config) {
        Ok(expr) => expr,
        Err(error) => {
            if error.kind == FrontendErrorKind::Unsupported {
                let parse_ms = elapsed_ms(&parse_started);
                proof {
                    reveal_strlit("left");
                    reveal_strlit("right");
                    assert("left"@.len() != "right"@.len());
                }
                return Ok(unsupported_report(query, "left", error, config, parse_ms, &AutomataBackend));
            }
            return Err(AnalyzeError::Input(error));
        },
    };
    let right_expr = match parse(right_pattern, config) {
        Ok(expr) => expr,
        Err(error) => {
            if error.kind == FrontendErrorKind::Unsupported {
                let parse_ms = elapsed_ms(&parse_started);
                proof {
                    reveal_strlit("left");
                    reveal_strlit("right");
                    assert("left"@.len() != "right"@.len());
                }
                return Ok(unsupported_report(query, "right", error, config, parse_ms, &AutomataBackend));
            }
            return Err(AnalyzeError::Input(error));
        },
    };
    let parse_ms = elapsed_ms(&parse_started);
    let r = analyze_exprs(query, &left_expr, &right_expr, config, parse_ms);
    proof {
        crate::laws::lemma_pattern_relation(query, left_expr, right_expr, left_pattern@, right_pattern@, *config);
        assert(matches_expr(left_expr, Seq::empty()) == pattern_matches(left_pattern@, *config, Seq::empty()));
        assert(matches_expr(right_expr, Seq::empty()) == pattern_matches(right_pattern@, *config, Seq::empty()));
        if r is Ok && r->Ok_0.witness is Some {
            let w = r->Ok_0.witness->0;
            {
                assert forall|u: Seq<char>| u.len() < w.value@.len() implies #[trigger] relation_of(
                    query,
                    pattern_matches(left_pattern@, *config, u),
                    pattern_matches(right_pattern@, *config, u),
                ) is None by {
                    assert(matches_expr(left_expr, u) == pattern_matches(left_pattern@, *config, u));
                    assert(matches_expr(right_expr, u) == pattern_matches(right_pattern@, *config, u));
                    assert(relation_of(query, matches_expr(left_expr, u), matches_expr(right_expr, u)) is None);
                }
                assert(matches_expr(left_expr, w.value@) == pattern_matches(left_pattern@, *config, w.value@));
                assert(matches_expr(right_expr, w.value@) == pattern_matches(right_pattern@, *config, w.value@));
            }
        }
    }
    r
}

/// Decide `query` between the languages of two parsed expressions with the
/// default engine. The answer is always a report: `YES` exactly when the
/// relation holds between the expressions' languages, `NO` exactly when it
/// fails, and `UNKNOWN` only when the search hit the state limit or the
/// timeout. A witness settles the query between the expressions as its
/// relation says, and no shorter string settles it.
pub fn analyze_exprs(query: Query, left_expr: &Expr, right_expr: &Expr, config: &Config, parse_ms: u128) -> (r: Result<
    Report,
    AnalyzeError,
>)
    requires
        query != Query::Empty,
        expr_wf(*left_expr, config.alphabet, config.max_repeat),
        expr_wf(*right_expr, config.alphabet, config.max_repeat),
    ensures
        r is Ok,
        r matches Ok(rep) ==> rep.query == query,
        r matches Ok(rep) ==> rep.verdict == Verdict::Yes || rep.verdict == Verdict::No || rep.verdict == Verdict::Unknown,
        r matches Ok(rep) ==> (rep.verdict == Verdict::Yes ==> crate::laws::expr_relation_holds(query, *left_expr, *right_expr)),
        r matches Ok(rep) ==> (rep.verdict == Verdict::No ==> !crate::laws::expr_relation_holds(query, *left_expr, *right_expr)),
        r matches Ok(rep) ==> (rep.verdict == Verdict::Unknown ==> (rep.diagnostic.id@ == "RR_STATE_LIMIT"@
            && rep.statistics.visited_product_states >= config.max_product_states && rep.statistics.visited_product_states
            <= state_budget(config.max_product_states) && relation_of(
            query,
            matches_expr(*left_expr, Seq::empty()),
            matches_expr(*right_expr, Seq::empty()),
        ) is None) || rep.diagnostic.id@ == "RR_TIMEOUT"@),
        r matches Ok(rep) ==> (rep.witness matches Some(w) ==> w.value@.len() == 0 || w.value@.len()
            < config.max_product_states),
        r matches Ok(rep) ==> ((rep.witness is Some) == (rep.verdict == binary_verdict(query, BackendStatus::Found))),
        r matches Ok(rep) ==> (rep.witness matches Some(w) ==> w.codepoints == w.value@.len()),
        r matches Ok(rep) ==> (rep.witness matches Some(w) ==> relation_of(
            query,
            matches_expr(*left_expr, w.value@),
            matches_expr(*right_expr, w.value@),
        ) == Some(w.relation@) && forall|u: Seq<char>|
            u.len() < w.value@.len() ==> #[trigger] relation_of(query, matches_expr(*left_expr, u), matches_expr(*right_expr, u))
                is None),
        r matches Ok(rep) ==> texts(rep.diagnostic.assumptions@) == assumption_lines(*config),
        r matches Ok(rep) ==> rep.statistics.timings.parsing_ms == parse_ms,
{
    let build_started = instant_now();
    let left = Nfa::from_expr(left_expr);
    let right = Nfa::from_expr(right_expr);
    let build_ms = elapsed_ms(&build_started);
    proof {
        lemma_wf_bounds_ordered(*left_expr, config.alphabet, config.max_repeat);
        lemma_wf_bounds_ordered(*right_expr, config.alphabet, config.max_repeat);
    }
    let outcome = search_product(query, &left, &right, config, &WallClock::start());
    let mut report = report_from_binary_outcome(query, &left, &right, outcome, config, parse_ms, build_ms, &AutomataBackend);
    proof {
        crate::laws::lemma_expr_verdict_exact(query, *left_expr, *right_expr, left, right, outcome);
        assert(left.accepts(Seq::empty()) == matches_expr(*left_expr, Seq::empty()));
        assert(right.accepts(Seq::empty()) == matches_expr(*right_expr, Seq::empty()));
    }
    match validate_binary_witness(&mut report, query, &left, &right) {
        Ok(()) => {},
        Err(error) => {
            return Err(error);
        },
    }
    Ok(report)
}

/// Decide `query` between the languages of two patterns with `backend`.
///
/// A pattern outside the supported subset gives an `UNSUPPORTED` report;
/// a malformed one an input error. A witness the engine returns is
/// replayed on both automata before the report carries it.
pub fn analyze_binary_with_backend<B: RelationBackend + ?Sized>(
    query: Query,
    left_pattern: &str,
    right_pattern: &str,
    config: &Config,
    backend: &B,
) -> (r: Result<Report, AnalyzeError>)
    ensures
        query == Query::Empty ==> r matches Err(AnalyzeError::Internal(_)),
        r matches Err(AnalyzeError::Input(e)) ==> e.kind == FrontendErrorKind::Syntax,
        r matches Ok(rep) ==> rep.query == query,
        r matches Ok(rep) ==> (rep.verdict == Verdict::Unsupported ==> rep.witness is None && rep.diagnostic.input is Some),
        match r {
            Ok(rep) => match rep.witness {
                Some(w) => exists|a: bool, b: bool| relation_of(query, a, b) == Some(w.relation@),
                None => true,
            },
            Err(_) => true,
        },
        plain_text(left_pattern@, config.alphabet) && plain_text(right_pattern@, config.alphabet) ==> match r {
            Ok(rep) => rep.witness matches Some(w) ==> relation_of(
                query,
                w.value@ == left_pattern@,
                w.value@ == right_pattern@,
            ) == Some(w.relation@),
            Err(e) => query != Query::Empty ==> e is Internal,
        },
        r matches Ok(rep) ==> (rep.verdict == Verdict::Unsupported ==> rep.diagnostic.id@ == "RR_UNSUPPORTED"@ && (
        rep.diagnostic.input matches Some(i) && (i@ == "left"@ || i@ == "right"@))),
        r matches Ok(rep) ==> (rep.witness matches Some(w) ==> relation_of(
            query,
            pattern_matches(left_pattern@, *config, w.value@),
            pattern_matches(right_pattern@, *config, w.value@),
        ) == Some(w.relation@)),
        query != Query::Empty && pattern_accepted(left_pattern@, *config) && pattern_accepted(right_pattern@, *config) ==> (r is Ok
            || r matches Err(AnalyzeError::Internal(_))) && (r matches Ok(rep) ==> rep.verdict != Verdict::Unsupported),
        r matches Err(AnalyzeError::Input(_)) ==> !pattern_accepted(left_pattern@, *config) || !pattern_accepted(right_pattern@, *config),
        r matches Ok(rep) ==> (rep.verdict == Verdict::Unsupported ==> (rep.diagnostic.input matches Some(i) && (i@ == "left"@
            ==> !pattern_accepted(left_pattern@, *config)) && (i@ == "right"@ ==> !pattern_accepted(right_pattern@, *config)))),
{
    if query == Query::Empty {
        return Err(AnalyzeError::Internal("binary analysis called with the empty-language query".to_owned()));
    }
    let parse_started = instant_now();
    let left_read = parse(left_pattern, config);
    let right_read = parse(right_pattern, config);
    let parse_ms = elapsed_ms(&parse_started);
    proof {
        reveal_strlit("left");
        reveal_strlit("right");
        assert("left"@.len() != "right"@.len());
    }
    let r = analyze_parse_results(query, left_read, right_read, config, backend, parse_ms);
    proof {
        if left_read is Ok && right_read is Ok && r is Ok && r->Ok_0.witness is Some {
            let w = r->Ok_0.witness->0;
            assert(matches_expr(left_read->Ok_0, w.value@) == pattern_matches(left_pattern@, *config, w.value@));
            assert(matches_expr(right_read->Ok_0, w.value@) == pattern_matches(right_pattern@, *config, w.value@));
        }
    }
    r
}

/// The answer to a binary query once both patterns have been read. A
/// refusal of the left pattern decides first, then one of the right: a
/// malformed pattern is an input error carrying the parser's error; one
/// outside the supported subset gives an `UNSUPPORTED` report naming the
/// side and carrying the error. Two expressions go to the engine through
/// [`analyze_parsed`].
pub fn analyze_parse_results<B: RelationBackend + ?Sized>(
    query: Query,
    left: Result<Expr, FrontendError>,
    right: Result<Expr, FrontendError>,
    config: &Config,
    backend: &B,
    parse_ms: u128,
) -> (r: Result<Report, AnalyzeError>)
    requires
        query != Query::Empty,
        left matches Ok(e) ==> expr_wf(e, config.alphabet, config.max_repeat),
        right matches Ok(e) ==> expr_wf(e, config.alphabet, config.max_repeat),
    ensures
        left matches Err(e) ==> refusal_answer(r, query, e, "left"@, *config),
        left is Ok ==> (right matches Err(e) ==> refusal_answer(r, query, e, "right"@, *config)),
        (left is Ok && right is Ok && r is Err) ==> r matches Err(AnalyzeError::Internal(_)),
        (left is Ok && right is Ok) ==> (r matches Ok(rep) ==> rep.query == query && (rep.verdict == Verdict::Yes
            || rep.verdict == Verdict::No || rep.verdict == Verdict::Unknown) && ((rep.witness is Some) == (rep.verdict
            == binary_verdict(query, BackendStatus::Found)))),
        (left is Ok && right is Ok) ==> (r matches Ok(rep) ==> (rep.witness matches Some(w) ==> relation_of(
            query,
            matches_expr(left->Ok_0, w.value@),
            matches_expr(right->Ok_0, w.value@),
        ) == Some(w.relation@))),
{
    let left_expr = match left {
        Ok(expr) => expr,
        Err(error) => {
            if error.kind == FrontendErrorKind::Unsupported {
                return Ok(unsupported_report(query, "left", error, config, parse_ms, backend));
            }
            return Err(AnalyzeError::Input(error));
        },
    };
    let right_expr = match right {
        Ok(expr) => expr,
        Err(error) => {
            if error.kind == FrontendErrorKind::Unsupported {
                return Ok(unsupported_report(query, "right", error, config, parse_ms, backend));
            }
            return Err(AnalyzeError::Input(error));
        },
    };
    analyze_parsed(query, &left_expr, &right_expr, config, backend, parse_ms)
}

/// What a refused pattern is answered: a malformed one is an input error
/// carrying the parser's error; one outside the supported subset is an
/// `UNSUPPORTED` report for `query` that names `side`, carries the error
/// and its message, and has no witness.
pub open spec fn refusal_answer(
    r: Result<Report, AnalyzeError>,
    query: Query,
    e: FrontendError,
    side: Seq<char>,
    config: Config,
) -> bool {
    if e.kind == FrontendErrorKind::Syntax {
        r == Err::<Report, AnalyzeError>(AnalyzeError::Input(e))
    } else {
        r matches Ok(rep) && {
            &&& rep.query == query
            &&& rep.verdict == Verdict::Unsupported
            &&& rep.witness is None
            &&& rep.diagnostic.id@ == "RR_UNSUPPORTED"@
            &&& rep.diagnostic.message@ == e.message@
            &&& rep.diagnostic.input matches Some(i) && i@ == side
            &&& rep.diagnostic.error matches Some(x) && x.kind == e.kind && x.span_start == e.span_start && x.span_end
                == e.span_end
            &&& texts(rep.diagnostic.assumptions@) == assumption_lines(config)
        }
    }
}

/// Decide `query` between the languages of two parsed expressions with
/// `backend`. A witness the engine returns is replayed on the automata
/// built from the expressions, which accept exactly the expressions'
/// languages: a report carries it only when it settles the query between
/// the expressions as the relation it names says; otherwise the engine is
/// at fault and the answer is an internal error.
pub fn analyze_parsed<B: RelationBackend + ?Sized>(
    query: Query,
    left_expr: &Expr,
    right_expr: &Expr,
    config: &Config,
    backend: &B,
    parse_ms: u128,
) -> (r: Result<Report, AnalyzeError>)
    requires
        query != Query::Empty,
        expr_wf(*left_expr, config.alphabet, config.max_repeat),
        expr_wf(*right_expr, config.alphabet, config.max_repeat),
    ensures
        r is Err ==> r matches Err(AnalyzeError::Internal(_)),
        r matches Ok(rep) ==> rep.query == query,
        r matches Ok(rep) ==> rep.verdict == Verdict::Yes || rep.verdict == Verdict::No || rep.verdict == Verdict::Unknown,
        r matches Ok(rep) ==> ((rep.witness is Some) == (rep.verdict == binary_verdict(query, BackendStatus::Found))),
        r matches Ok(rep) ==> (rep.witness matches Some(w) ==> relation_of(
            query,
            matches_expr(*left_expr, w.value@),
            matches_expr(*right_expr, w.value@),
        ) == Some(w.relation@)),
{
    let build_started = instant_now();
    let left = Nfa::from_expr(left_expr);
    let right = Nfa::from_expr(right_expr);
    let build_ms = elapsed_ms(&build_started);
    proof {
        lemma_wf_bounds_ordered(*left_expr, config.alphabet, config.max_repeat);
        lemma_wf_bounds_ordered(*right_expr, config.alphabet, config.max_repeat);
    }
    let outcome = backend.analyze_binary_expr(query, left_expr, right_expr, &left, &right, config);
    binary_answer(query, left_expr, right_expr, &left, &right, outcome, config, parse_ms, build_ms, backend)
}

/// The answer to a binary query from how the engine's search ended: the
/// report of [`report_from_binary_outcome`], whose witness, if any, is
/// replayed on the expressions. A witness that settles nothing is the
/// engine's fault, answered with an internal error; otherwise the report
/// carries the relation that the replay shows.
pub fn binary_answer<B: RelationBackend + ?Sized>(
    query: Query,
    left_expr: &Expr,
    right_expr: &Expr,
    left: &Nfa,
    right: &Nfa,
    outcome: BackendResult,
    config: &Config,
    parse_ms: u128,
    build_ms: u128,
    backend: &B,
) -> (r: Result<Report, AnalyzeError>)
    requires
        query != Query::Empty,
        left.wf(),
        right.wf(),
        forall|w: Seq<char>| #[trigger] left.accepts(w) == matches_expr(*left_expr, w),
        forall|w: Seq<char>| #[trigger] right.accepts(w) == matches_expr(*right_expr, w),
    ensures
        r is Err <==> (outcome.status == BackendStatus::Found && relation_of(
            query,
            matches_expr(*left_expr, outcome_witness_text(outcome)),
            matches_expr(*right_expr, outcome_witness_text(outcome)),
        ) is None),
        r is Err ==> r matches Err(AnalyzeError::Internal(_)),
        r matches Ok(rep) ==> {
            &&& rep.query == query
            &&& rep.verdict == binary_verdict(query, outcome.status)
            &&& rep.diagnostic.id@ == binary_id(query, outcome.status)
            &&& rep.diagnostic.message@ == binary_message(query, outcome.status)
            &&& (rep.witness is Some <==> outcome.status == BackendStatus::Found)
            &&& rep.statistics.visited_product_states == outcome.visited_states
            &&& rep.statistics.generated_transitions == outcome.generated_transitions
            &&& rep.statistics.timings.parsing_ms == parse_ms
            &&& rep.diagnostic.input is None
            &&& texts(rep.diagnostic.assumptions@) == assumption_lines(*config)
        },
        r matches Ok(rep) ==> (rep.witness matches Some(w) ==> w.value@ == outcome_witness_text(outcome)
            && w.codepoints == w.value@.len() && relation_of(
            query,
            matches_expr(*left_expr, w.value@),
            matches_expr(*right_expr, w.value@),
        ) == Some(w.relation@)),
{
    let mut report = report_from_binary_outcome(query, left, right, outcome, config, parse_ms, build_ms, backend);
    let ghost before = report;
    proof {
        if outcome.status == BackendStatus::Found {
            let t = outcome_witness_text(outcome);
            assert(left.accepts(t) == matches_expr(*left_expr, t));
            assert(right.accepts(t) == matches_expr(*right_expr, t));
        }
    }
    match validate_binary_witness(&mut report, query, left, right) {
        Ok(()) => {},
        Err(error) => {
            return Err(error);
        },
    }
    proof {
        if report.witness is Some {
            let w = report.witness->0;
            assert(left.accepts(w.value@) == matches_expr(*left_expr, w.value@));
            assert(right.accepts(w.value@) == matches_expr(*right_expr, w.value@));
        }
    }
    Ok(report)
}

/// Decide whether the language of a pattern is empty, with the default
/// engine.
pub fn analyze_empty(pattern: &str, config: &Config) -> (r: Result<Report, AnalyzeError>)
    ensures
        r matches Err(AnalyzeError::Input(e)) ==> e.kind == FrontendErrorKind::Syntax,
        r matches Ok(rep) ==> rep.query == Query::Empty,
        r matches Ok(rep) ==> (rep.verdict == Verdict::Unsupported ==> rep.witness is None && rep.diagnostic.input is Some),
        match r {
            Ok(rep) => match rep.witness {
                Some(w) => w.relation@ == relation::IN_LANGUAGE@,
                None => true,
            },
            Err(_) => true,
        },
        plain_text(pattern@, config.alphabet) ==> match r {
            Ok(rep) => rep.witness matches Some(w) ==> w.value@ == pattern@,
            Err(e) => false,
        },
        r matches Ok(rep) ==> texts(rep.diagnostic.assumptions@) == assumption_lines(*config),
        r matches Ok(rep) ==> (rep.verdict == Verdict::Unsupported ==> (rep.diagnostic.input matches Some(i) && i@ == "regex"@)),
        r is Ok || r matches Err(AnalyzeError::Input(_)),
        r matches Ok(rep) ==> (rep.verdict == Verdict::Unsupported ==> rep.diagnostic.id@ == "RR_UNSUPPORTED"@),
        r matches Ok(rep) ==> (rep.verdict == Verdict::Yes ==> forall|w: Seq<char>| !#[trigger] pattern_matches(pattern@, *config, w)),
        r matches Ok(rep) ==> (rep.witness is Some <==> rep.verdict == Verdict::No),
        r matches Ok(rep) ==> (rep.witness matches Some(w) ==> w.codepoints == w.value@.len()),
        r matches Ok(rep) ==> (rep.witness matches Some(w) ==> pattern_matches(pattern@, *config, w.value@) && forall|u: Seq<char>|
            u.len() < w.value@.len() ==> !#[trigger] pattern_matches(pattern@, *config, u)),
        r matches Ok(rep) ==> (rep.verdict == Verdict::Unknown ==> (rep.diagnostic.id@ == "RR_STATE_LIMIT"@
            && rep.statistics.visited_product_states >= config.max_product_states && rep.statistics.visited_product_states
            <= state_budget(config.max_product_states) && !pattern_matches(pattern@, *config, Seq::empty()))
            || rep.diagnostic.id@ == "RR_TIMEOUT"@),
        r matches Ok(rep) ==> (rep.witness matches Some(w) ==> w.value@.len() == 0 || w.value@.len()
            < config.max_product_states),
        pattern_accepted(pattern@, *config) ==> (r matches Ok(rep) && rep.verdict != Verdict::Unsupported),
        r matches Err(AnalyzeError::Input(_)) ==> !pattern_accepted(pattern@, *config),
        r matches Ok(rep) ==> (rep.verdict == Verdict::Unsupported ==> !pattern_accepted(pattern@, *config)),
{
    let parse_started = instant_now();
    let expr = match parse(pattern, config) {
        Ok(expr) => expr,
        Err(error) => {
            if error.kind == FrontendErrorKind::Unsupported {
                let parse_ms = elapsed_ms(&parse_started);
                return Ok(unsupported_report(Query::Empty, "regex", error, config, parse_ms, &AutomataBackend));
            }
            return Err(AnalyzeError::Input(error));
        },
    };
    let parse_ms = elapsed_ms(&parse_started);
    let r = analyze_expr_empty(&expr, config, parse_ms);
    proof {
        assert(matches_expr(expr, Seq::empty()) == pattern_matches(pattern@, *config, Seq::empty()));
        if r is Ok {
            let rep = r->Ok_0;
            if rep.verdict == Verdict::Yes {
                assert forall|w: Seq<char>| !#[trigger] pattern_matches(pattern@, *config, w) by {
                    assert(!matches_expr(expr, w));
                }
            }
            if rep.witness is Some {
                let w = rep.witness->0;
                assert(matches_expr(expr, w.value@));
                assert forall|u: Seq<char>| u.len() < w.value@.len() implies !#[trigger] pattern_matches(pattern@, *config, u) by {
                    assert(!matches_expr(expr, u));
                }
            }
        }
    }
    r
}

/// Decide whether the language of a parsed expression is empty with the
/// default engine. The answer is always a report: `YES` exactly when the
/// expression matches nothing, `NO` exactly when it matches something, with
/// a shortest string it matches as the witness, and `UNKNOWN` only when the
/// search hit the state limit or the timeout.
pub fn analyze_expr_empty(expr: &Expr, config: &Config, parse_ms: u128) -> (r: Result<Report, AnalyzeError>)
    requires
        expr_wf(*expr, config.alphabet, config.max_repeat),
    ensures
        r is Ok,
        r matches Ok(rep) ==> rep.query == Query::Empty,
        r matches Ok(rep) ==> rep.verdict == Verdict::Yes || rep.verdict == Verdict::No || rep.verdict == Verdict::Unknown,
        r matches Ok(rep) ==> (rep.verdict == Verdict::Yes ==> forall|w: Seq<char>| !#[trigger] matches_expr(*expr, w)),
        r matches Ok(rep) ==> ((rep.witness is Some) == (rep.verdict == Verdict::No)),
        r matches Ok(rep) ==> (rep.witness matches Some(w) ==> w.codepoints == w.value@.len()),
        r matches Ok(rep) ==> (rep.witness matches Some(w) ==> matches_expr(*expr, w.value@) && w.relation@
            == relation::IN_LANGUAGE@ && forall|u: Seq<char>| u.len() < w.value@.len() ==> !#[trigger] matches_expr(*expr, u)),
        r matches Ok(rep) ==> (rep.verdict == Verdict::Unknown ==> (rep.diagnostic.id@ == "RR_STATE_LIMIT"@
            && rep.statistics.visited_product_states >= config.max_product_states && rep.statistics.visited_product_states
            <= state_budget(config.max_product_states) && !matches_expr(*expr, Seq::empty())) || rep.diagnostic.id@
            == "RR_TIMEOUT"@),
        r matches Ok(rep) ==> (rep.witness matches Some(w) ==> w.value@.len() == 0 || w.value@.len()
            < config.max_product_states),
        r matches Ok(rep) ==> texts(rep.diagnostic.assumptions@) == assumption_lines(*config),
        r matches Ok(rep) ==> rep.statistics.timings.parsing_ms == parse_ms,
{
    let build_started = instant_now();
    let nfa = Nfa::from_expr(expr);
    let build_ms = elapsed_ms(&build_started);
    proof {
        lemma_wf_bounds_ordered(*expr, config.alphabet, config.max_repeat);
        assert(nfa.accepts(Seq::empty()) == matches_expr(*expr, Seq::empty()));
    }
    let outcome = search_single(&nfa, config, &WallClock::start());
    let mut report = report_from_empty_outcome(&nfa, outcome, config, parse_ms, build_ms, &AutomataBackend);
    let ghost first = report;
    match validate_empty_witness(&mut report, &nfa) {
        Ok(()) => {},
        Err(error) => {
            return Err(error);
        },
    }
    proof {
        assert(report.verdict == first.verdict);
        if report.verdict == Verdict::Yes {
            assert(outcome.status == BackendStatus::Exhausted);
            assert forall|w: Seq<char>| !#[trigger] matches_expr(*expr, w) by {
                assert(!nfa.accepts(w));
            }
        }
        if report.witness is Some {
            let w = report.witness->0;
            assert(outcome.status == BackendStatus::Found);
            assert(w.value@ == outcome.witness->0@);
            assert(nfa.accepts(w.value@));
            assert forall|u: Seq<char>| u.len() < w.value@.len() implies !#[trigger] matches_expr(*expr, u) by {
                assert(!nfa.accepts(u));
            }
        }
    }
    Ok(report)
}

/// Decide whether the language of a pattern is empty, with `backend`.
pub fn analyze_empty_with_backend<B: RelationBackend + ?Sized>(pattern: &str, config: &Config, backend: &B) -> (r: Result<
    Report,
    AnalyzeError,
>)
    ensures
        r matches Err(AnalyzeError::Input(e)) ==> e.kind == FrontendErrorKind::Syntax,
        r matches Ok(rep) ==> rep.query == Query::Empty,
        r matches Ok(rep) ==> (rep.verdict == Verdict::Unsupported ==> rep.witness is None && rep.diagnostic.input is Some),
        match r {
            Ok(rep) => match rep.witness {
                Some(w) => w.relation@ == relation::IN_LANGUAGE@,
                None => true,
            },
            Err(_) => true,
        },
        plain_text(pattern@, config.alphabet) ==> match r {
            Ok(rep) => rep.witness matches Some(w) ==> w.value@ == pattern@,
            Err(e) => e is Internal,
        },
        r matches Ok(rep) ==> texts(rep.diagnostic.assumptions@) == assumption_lines(*config),
        r matches Ok(rep) ==> (rep.verdict == Verdict::Unsupported ==> (rep.diagnostic.input matches Some(i) && i@ == "regex"@)),
        r matches Ok(rep) ==> (rep.verdict == Verdict::Unsupported ==> rep.diagnostic.id@ == "RR_UNSUPPORTED"@),
        r matches Ok(rep) ==> (rep.witness matches Some(w) ==> pattern_matches(pattern@, *config, w.value@)),
        pattern_accepted(pattern@, *config) ==> (r is Ok || r matches Err(AnalyzeError::Internal(_))) && (r matches Ok(rep)
            ==> rep.verdict != Verdict::Unsupported),
        r matches Err(AnalyzeError::Input(_)) ==> !pattern_accepted(pattern@, *config),
        r matches Ok(rep) ==> (rep.verdict == Verdict::Unsupported ==> !pattern_accepted(pattern@, *config)),
{
    let parse_started = instant_now();
    let read = parse(pattern, config);
    let parse_ms = elapsed_ms(&parse_started);
    let r = analyze_parse_result(read, config, backend, parse_ms);
    proof {
        if read is Ok && r is Ok && r->Ok_0.witness is Some {
            let w = r->Ok_0.witness->0;
            assert(matches_expr(read->Ok_0, w.value@) == pattern_matches(pattern@, *config, w.value@));
        }
    }
    r
}

/// The answer to an emptiness query once the pattern has been read: a
/// refusal is answered as [`refusal_answer`] says, for the side named
/// `regex`; an expression goes to the engine through
/// [`analyze_empty_parsed`].
pub fn analyze_parse_result<B: RelationBackend + ?Sized>(
    read: Result<Expr, FrontendError>,
    config: &Config,
    backend: &B,
    parse_ms: u128,
) -> (r: Result<Report, AnalyzeError>)
    requires
        read matches Ok(e) ==> expr_wf(e, config.alphabet, config.max_repeat),
    ensures
        read matches Err(e) ==> refusal_answer(r, Query::Empty, e, "regex"@, *config),
        (read is Ok && r is Err) ==> r matches Err(AnalyzeError::Internal(_)),
        read is Ok ==> (r matches Ok(rep) ==> rep.query == Query::Empty && (rep.verdict == Verdict::Yes || rep.verdict
            == Verdict::No || rep.verdict == Verdict::Unknown) && ((rep.witness is Some) == (rep.verdict == Verdict::No))),
        read is Ok ==> (r matches Ok(rep) ==> (rep.witness matches Some(w) ==> matches_expr(read->Ok_0, w.value@)
            && w.relation@ == relation::IN_LANGUAGE@)),
        r matches Ok(rep) ==> texts(rep.diagnostic.assumptions@) == assumption_lines(*config),
{
    match read {
        Ok(expr) => analyze_empty_parsed(&expr, config, backend, parse_ms),
        Err(error) => {
            if error.kind == FrontendErrorKind::Unsupported {
                return Ok(unsupported_report(Query::Empty, "regex", error, config, parse_ms, backend));
            }
            Err(AnalyzeError::Input(error))
        },
    }
}

/// Decide whether the language of a parsed expression is empty, with
/// `backend`. A string the engine returns is replayed on the automaton
/// built from the expression, which accepts exactly the expression's
/// language: a report carries it only when the expression matches it;
/// otherwise the engine is at fault and the answer is an internal error.
pub fn analyze_empty_parsed<B: RelationBackend + ?Sized>(expr: &Expr, config: &Config, backend: &B, parse_ms: u128) -> (r: Result<
    Report,
    AnalyzeError,
>)
    requires
        expr_wf(*expr, config.alphabet, config.max_repeat),
    ensures
        r is Err ==> r matches Err(AnalyzeError::Internal(_)),
        r matches Ok(rep) ==> rep.query == Query::Empty,
        r matches Ok(rep) ==> rep.verdict == Verdict::Yes || rep.verdict == Verdict::No || rep.verdict == Verdict::Unknown,
        r matches Ok(rep) ==> ((rep.witness is Some) == (rep.verdict == Verdict::No)),
        r matches Ok(rep) ==> (rep.witness matches Some(w) ==> matches_expr(*expr, w.value@) && w.relation@
            == relation::IN_LANGUAGE@),
        r matches Ok(rep) ==> {
            &&& texts(rep.diagnostic.assumptions@) == assumption_lines(*config)
            &&& rep.diagnostic.input is None
            &&& rep.statistics.right_nfa_states is None
            &&& rep.statistics.max_product_states == config.max_product_states
            &&& rep.statistics.timeout_ms == config.timeout_ms
            &&& rep.statistics.alphabet == config.alphabet
            &&& rep.statistics.timings.parsing_ms == parse_ms
            &&& rep.semantics.dot_matches_newline == config.dot_matches_newline
        },
{
    let build_started = instant_now();
    let nfa = Nfa::from_expr(expr);
    let build_ms = elapsed_ms(&build_started);
    proof {
        lemma_wf_bounds_ordered(*expr, config.alphabet, config.max_repeat);
    }
    let outcome = backend.analyze_empty_expr(expr, &nfa, config);
    empty_answer(expr, &nfa, outcome, config, parse_ms, build_ms, backend)
}

/// The answer to an emptiness query from how the engine's search ended:
/// the report of [`report_from_empty_outcome`], whose string, if any, must
/// match the expression; one that does not is the engine's fault, answered
/// with an internal error.
pub fn empty_answer<B: RelationBackend + ?Sized>(
    expr: &Expr,
    nfa: &Nfa,
    outcome: BackendResult,
    config: &Config,
    parse_ms: u128,
    build_ms: u128,
    backend: &B,
) -> (r: Result<Report, AnalyzeError>)
    requires
        nfa.wf(),
        forall|w: Seq<char>| #[trigger] nfa.accepts(w) == matches_expr(*expr, w),
    ensures
        r is Err <==> (outcome.status == BackendStatus::Found && !matches_expr(*expr, outcome_witness_text(outcome))),
        r is Err ==> r matches Err(AnalyzeError::Internal(_)),
        r matches Ok(rep) ==> {
            &&& rep.query == Query::Empty
            &&& rep.verdict == empty_verdict(outcome.status)
            &&& rep.diagnostic.id@ == empty_id(outcome.status)
            &&& rep.diagnostic.message@ == empty_message(outcome.status)
            &&& (rep.witness is Some <==> outcome.status == BackendStatus::Found)
            &&& rep.statistics.visited_product_states == outcome.visited_states
            &&& rep.statistics.generated_transitions == outcome.generated_transitions
            &&& rep.statistics.timings.parsing_ms == parse_ms
            &&& rep.diagnostic.input is None
            &&& texts(rep.diagnostic.assumptions@) == assumption_lines(*config)
            &&& rep.statistics.right_nfa_states is None
            &&& rep.statistics.max_product_states == config.max_product_states
            &&& rep.statistics.timeout_ms == config.timeout_ms
            &&& rep.statistics.alphabet == config.alphabet
            &&& rep.semantics.dot_matches_newline == config.dot_matches_newline
        },
        r matches Ok(rep) ==> (rep.witness matches Some(w) ==> w.value@ == outcome_witness_text(outcome)
            && w.codepoints == w.value@.len() && matches_expr(*expr, w.value@) && w.relation@ == relation::IN_LANGUAGE@),
{
    let mut report = report_from_empty_outcome(nfa, outcome, config, parse_ms, build_ms, backend);
    proof {
        let t = outcome_witness_text(outcome);
        assert(nfa.accepts(t) == matches_expr(*expr, t));
    }
    match validate_empty_witness(&mut report, nfa) {
        Ok(()) => {},
        Err(error) => {
            return Err(error);
        },
    }
    proof {
        if report.witness is Some {
            let w = report.witness->0;
            assert(nfa.accepts(w.value@) == matches_expr(*expr, w.value@));
        }
    }
    Ok(report)
}

} // verus!
