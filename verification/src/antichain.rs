//! Antichain inclusion engine (De Wulf et al., CAV'06).
//!
//! One automaton is explored state by state while the other is tracked as a
//! subset of its states. A pair `(q, S)` is pruned when a pair `(q, S')`
//! with `S' ⊆ S` was met before: whatever string settles the query from
//! `(q, S)` settles it from `(q, S')` too. Overlap walks pairs of single
//! states; equivalence runs both inclusions side by side, one string length
//! at a time.
use std::time::Instant;
use crate::analysis::{
    relation_of, search_single, elapsed_ms, instant_now, Clock, WallClock, lemma_run_push, parents_ok, path_word, reconstruct, BackendResult, BackendStatus, Query,
    RelationBackend, SearchNode,
};
use crate::charset::partition::{any_has, same_membership, sets_scalar, source_sets};
use crate::charset::{representative_chars, CharSet};
use crate::config::Config;
use crate::report::{relation, TOOL_VERSION};
use crate::text::char_text;
use crate::nfa::walk::lemma_closure_closed;
use crate::nfa::{Nfa, State};
use vstd::prelude::*;

verus! {

/// Bit `k` of a word.
pub open spec fn bit(w: u64, k: int) -> bool {
    (w >> (k as u64)) & 1u64 == 1u64
}

proof fn lemma_bit_set(w: u64, k: u64, j: u64)
    requires
        k < 64,
        j < 64,
    ensures
        ((w | (1u64 << k)) >> j) & 1u64 == 1u64 <==> ((w >> j) & 1u64 == 1u64 || j == k),
{
    assert(k < 64 && j < 64 ==> (((w | (1u64 << k)) >> j) & 1u64 == 1u64 <==> ((w >> j) & 1u64 == 1u64 || j == k)))
        by (bit_vector);
}

proof fn lemma_bit_clear(w: u64, k: u64, j: u64)
    requires
        k < 64,
        j < 64,
    ensures
        ((w & !(1u64 << k)) >> j) & 1u64 == 1u64 <==> ((w >> j) & 1u64 == 1u64 && j != k),
{
    assert(k < 64 && j < 64 ==> (((w & !(1u64 << k)) >> j) & 1u64 == 1u64 <==> ((w >> j) & 1u64 == 1u64 && j != k)))
        by (bit_vector);
}

proof fn lemma_bit_clear_smaller(w: u64, k: u64)
    requires
        k < 64,
        (w >> k) & 1u64 == 1u64,
    ensures
        w & !(1u64 << k) < w,
{
    assert(k < 64 && (w >> k) & 1u64 == 1u64 ==> w & !(1u64 << k) < w) by (bit_vector);
}

proof fn lemma_bit_or(a: u64, b: u64, j: u64)
    requires
        j < 64,
    ensures
        ((a | b) >> j) & 1u64 == 1u64 <==> ((a >> j) & 1u64 == 1u64 || (b >> j) & 1u64 == 1u64),
{
    assert(j < 64 ==> (((a | b) >> j) & 1u64 == 1u64 <==> ((a >> j) & 1u64 == 1u64 || (b >> j) & 1u64 == 1u64)))
        by (bit_vector);
}

proof fn lemma_bit_and_not(a: u64, b: u64, j: u64)
    requires
        j < 64,
    ensures
        ((a & !b) >> j) & 1u64 == 1u64 <==> ((a >> j) & 1u64 == 1u64 && (b >> j) & 1u64 != 1u64),
{
    assert(j < 64 ==> (((a & !b) >> j) & 1u64 == 1u64 <==> ((a >> j) & 1u64 == 1u64 && (b >> j) & 1u64 != 1u64)))
        by (bit_vector);
}

proof fn lemma_bit_zero(j: u64)
    requires
        j < 64,
    ensures
        (0u64 >> j) & 1u64 != 1u64,
{
    assert(j < 64 ==> (0u64 >> j) & 1u64 != 1u64) by (bit_vector);
}

/// A nonzero word has a lowest set bit, and no bit below it.
proof fn lemma_lowest_bit(w: u64)
    requires
        w != 0,
    ensures
        (w.trailing_zeros() as int) < 64,
        bit(w, w.trailing_zeros() as int),
        forall|j: int| 0 <= j < w.trailing_zeros() ==> !#[trigger] bit(w, j),
{
    vstd::std_specs::bits::axiom_u64_trailing_zeros(w);
    let t = w.trailing_zeros();
    assert forall|j: int| 0 <= j < t implies !#[trigger] bit(w, j) by {
        let jj = j as u64;
        assert((w >> jj) & 1u64 == 0u64);
    }
}

/// A set of state ids packed into 64-bit words.
pub struct BitSet {
    words: Vec<u64>,
}

impl BitSet {
    /// Every bit position numbers as a `usize`.
    #[verifier::type_invariant]
    closed spec fn inv(&self) -> bool {
        self.words@.len() * 64 <= usize::MAX + 1
    }

    /// The words of the set.
    pub closed spec fn spec_words(&self) -> Seq<u64> {
        self.words@
    }

    /// How many ids the words can hold.
    pub open spec fn capacity(&self) -> int {
        (self.spec_words().len() * 64) as int
    }

    /// The set holds `id`.
    pub open spec fn has(&self, id: int) -> bool {
        0 <= id < self.capacity() && bit(self.spec_words()[id / 64], id % 64)
    }

    /// The number of words for `n` ids.
    pub open spec fn words_for(n: int) -> int {
        if n % 64 == 0 {
            n / 64
        } else {
            n / 64 + 1
        }
    }

    /// An empty set with room for the ids below `n_states`.
    pub fn new(n_states: usize) -> (r: Self)
        ensures
            r.spec_words().len() == Self::words_for(n_states as int),
            forall|id: int| !r.has(id),
    {
        let n_words = if n_states % 64 == 0 {
            n_states / 64
        } else {
            n_states / 64 + 1
        };
        let mut words: Vec<u64> = Vec::new();
        let mut i: usize = 0;
        while i < n_words
            invariant
                i <= n_words,
                words@.len() == i,
                forall|k: int| 0 <= k < i ==> words@[k] == 0u64,
            decreases n_words - i,
        {
            words.push(0u64);
            i += 1;
        }
        proof {
            assert(usize::MAX == 0xffff_ffff || usize::MAX == 0xffff_ffff_ffff_ffff);
            vstd::arithmetic::div_mod::lemma_fundamental_div_mod(n_states as int, 64);
            assert(words@.len() * 64 <= usize::MAX + 1);
        }
        let r = Self { words };
        proof {
            assert forall|id: int| !r.has(id) by {
                if 0 <= id < r.capacity() {
                    assert(0 <= id / 64 < words@.len()) by (nonlinear_arith)
                        requires
                            0 <= id < words@.len() * 64,
                    ;
                    lemma_bit_zero((id % 64) as u64);
                }
            }
        }
        r
    }

    /// Add `id`; a set with no words stays empty.
    pub fn insert(&mut self, id: usize)
        requires
            old(self).spec_words().len() == 0 || id < old(self).capacity(),
        ensures
            final(self).spec_words().len() == old(self).spec_words().len(),
            forall|x: int| #[trigger] final(self).has(x) <==> (old(self).has(x) || (x == id && old(self).spec_words().len() > 0)),
    {
        if self.words.len() == 0 {
            return;
        }
        let ghost before = self.words@;
        let slot = id / 64;
        let shift = (id % 64) as u64;
        proof {
            assert(slot < before.len()) by (nonlinear_arith)
                requires
                    id < before.len() * 64,
                    slot == id / 64,
            ;
        }
        proof {
            use_type_invariant(&*self);
        }
        let mut words: Vec<u64> = Vec::new();
        std::mem::swap(&mut words, &mut self.words);
        let w = words[slot] | (1u64 << shift);
        words.set(slot, w);
        self.words = words;
        proof {
            assert forall|x: int| #[trigger] self.has(x) <==> (before.len() * 64 > x >= 0 && bit(before[x / 64], x % 64) || (x == id
                && before.len() > 0)) by {
                if 0 <= x < self.capacity() {
                    assert(0 <= x / 64 < before.len()) by (nonlinear_arith)
                        requires
                            0 <= x < before.len() * 64,
                    ;
                    if x / 64 == slot {
                        lemma_bit_set(before[slot as int], shift, (x % 64) as u64);
                        assert(x == id <==> x % 64 == shift) by (nonlinear_arith)
                            requires
                                0 <= x,
                                x / 64 == id / 64,
                                shift == id % 64,
                        ;
                    } else {
                        assert(self.words@[x / 64] == before[x / 64]);
                        assert(x != id);
                    }
                }
            }
        }
    }

    /// The set holds `id`.
    pub fn contains(&self, id: usize) -> (r: bool)
        requires
            self.spec_words().len() == 0 || id < self.capacity(),
        ensures
            r == self.has(id as int),
    {
        if self.words.len() == 0 {
            return false;
        }
        proof {
            assert(id / 64 < self.words@.len()) by (nonlinear_arith)
                requires
                    id < self.words@.len() * 64,
            ;
        }
        let shift = (id % 64) as u64;
        (self.words[id / 64] >> shift) & 1u64 == 1u64
    }

    /// The set holds no id.
    pub fn is_empty(&self) -> (r: bool)
        ensures
            r == forall|id: int| !self.has(id),
    {
        let mut i: usize = 0;
        while i < self.words.len()
            invariant
                i <= self.words@.len(),
                forall|k: int| 0 <= k < i ==> self.words@[k] == 0u64,
            decreases self.words@.len() - i,
        {
            if self.words[i] != 0 {
                proof {
                    let w = self.words@[i as int];
                    lemma_lowest_bit(w);
                    let id = i * 64 + w.trailing_zeros() as int;
                    assert(id / 64 == i && id % 64 == w.trailing_zeros() as int) by (nonlinear_arith)
                        requires
                            id == i * 64 + w.trailing_zeros() as int,
                            0 <= w.trailing_zeros() < 64,
                    ;
                    assert(id < self.capacity()) by (nonlinear_arith)
                        requires
                            id == i * 64 + w.trailing_zeros() as int,
                            0 <= w.trailing_zeros() < 64,
                            i < self.words@.len(),
                    ;
                    assert(self.has(id));
                }
                return false;
            }
            i += 1;
        }
        proof {
            assert forall|id: int| !self.has(id) by {
                if 0 <= id < self.capacity() {
                    assert(0 <= id / 64 < self.words@.len()) by (nonlinear_arith)
                        requires
                            0 <= id < self.words@.len() * 64,
                    ;
                    lemma_bit_zero((id % 64) as u64);
                }
            }
        }
        true
    }

    /// The ids below both capacities.
    pub open spec fn common(&self, other: &Self) -> int {
        if self.spec_words().len() <= other.spec_words().len() {
            self.capacity()
        } else {
            other.capacity()
        }
    }

    /// Every id of this set within both capacities is in `other`.
    pub fn is_subset(&self, other: &Self) -> (r: bool)
        ensures
            r == forall|id: int| 0 <= id < self.common(other) && #[trigger] self.has(id) ==> other.has(id),
    {
        let n = if self.words.len() <= other.words.len() {
            self.words.len()
        } else {
            other.words.len()
        };
        let mut i: usize = 0;
        while i < n
            invariant
                n == if self.words@.len() <= other.words@.len() {
                    self.words@.len()
                } else {
                    other.words@.len()
                },
                i <= n,
                forall|id: int| 0 <= id < i * 64 && #[trigger] self.has(id) ==> other.has(id),
            decreases n - i,
        {
            let a = self.words[i];
            let b = other.words[i];
            let d = a & !b;
            if d != 0 {
                proof {
                    lemma_lowest_bit(d);
                    let t = d.trailing_zeros();
                    lemma_bit_and_not(a, b, t as u64);
                    let id = i * 64 + t as int;
                    assert(id / 64 == i && id % 64 == t as int && id < n * 64) by (nonlinear_arith)
                        requires
                            id == i * 64 + t as int,
                            0 <= t < 64,
                            i < n,
                    ;
                    assert(self.has(id));
                    assert(!other.has(id));
                }
                return false;
            }
            proof {
                assert forall|id: int| 0 <= id < (i + 1) * 64 && #[trigger] self.has(id) implies other.has(id) by {
                    if id >= i * 64 {
                        assert(id / 64 == i) by (nonlinear_arith)
                            requires
                                i * 64 <= id < (i + 1) * 64,
                        ;
                        lemma_bit_and_not(a, b, (id % 64) as u64);
                        lemma_bit_zero((id % 64) as u64);
                        assert(id < other.capacity()) by (nonlinear_arith)
                            requires
                                id < (i + 1) * 64,
                                i < other.words@.len(),
                        ;
                    }
                }
            }
            i += 1;
        }
        true
    }

    /// Add every id of `other` within both capacities.
    pub fn union_with(&mut self, other: &Self)
        ensures
            final(self).spec_words().len() == old(self).spec_words().len(),
            forall|id: int|
                #[trigger] final(self).has(id) <==> (old(self).has(id) || (0 <= id < old(self).common(other) && other.has(id))),
    {
        proof {
            use_type_invariant(&*self);
        }
        let ghost before = self.words@;
        let n = if self.words.len() <= other.words.len() {
            self.words.len()
        } else {
            other.words.len()
        };
        let mut words: Vec<u64> = Vec::new();
        std::mem::swap(&mut words, &mut self.words);
        let mut i: usize = 0;
        while i < n
            invariant
                n == if before.len() <= other.words@.len() {
                    before.len()
                } else {
                    other.words@.len()
                },
                i <= n,
                words@.len() == before.len(),
                forall|k: int| 0 <= k < i ==> words@[k] == before[k] | other.words@[k],
                forall|k: int| i <= k < before.len() ==> words@[k] == before[k],
            decreases n - i,
        {
            let w = words[i] | other.words[i];
            words.set(i, w);
            i += 1;
        }
        self.words = words;
        proof {
            assert forall|id: int|
                #[trigger] self.has(id) <==> ((0 <= id < before.len() * 64 && bit(before[id / 64], id % 64)) || (0 <= id < n
                    * 64 && other.has(id))) by {
                if 0 <= id < before.len() * 64 {
                    assert(0 <= id / 64 < before.len()) by (nonlinear_arith)
                        requires
                            0 <= id < before.len() * 64,
                    ;
                    if id / 64 < n {
                        lemma_bit_or(before[id / 64], other.words@[id / 64], (id % 64) as u64);
                        assert(id < other.capacity()) by (nonlinear_arith)
                            requires
                                0 <= id / 64 < n,
                                n <= other.words@.len(),
                                id >= 0,
                        ;
                    } else {
                        assert(id >= n * 64) by (nonlinear_arith)
                            requires
                                id / 64 >= n,
                                id >= 0,
                        ;
                    }
                }
                if 0 <= id < n * 64 {
                    assert(id < before.len() * 64) by (nonlinear_arith)
                        requires
                            id < n * 64,
                            n <= before.len(),
                    ;
                }
            }
        }
    }

    /// The ids of the set, in increasing order.
    pub fn iter(&self) -> (r: Vec<usize>)
        ensures
            forall|i: int, j: int| 0 <= i < j < r@.len() ==> #[trigger] r@[i] < #[trigger] r@[j],
            forall|id: usize| #[trigger] r@.contains(id) <==> self.has(id as int),
    {
        proof {
            use_type_invariant(self);
        }
        let mut out: Vec<usize> = Vec::new();
        let mut i: usize = 0;
        while i < self.words.len()
            invariant
                i <= self.words@.len(),
                self.words@.len() * 64 <= usize::MAX + 1,
                forall|a: int, b: int| 0 <= a < b < out@.len() ==> #[trigger] out@[a] < #[trigger] out@[b],
                forall|a: int| 0 <= a < out@.len() ==> #[trigger] out@[a] < i * 64,
                forall|id: usize| #[trigger] out@.contains(id) <==> (id < i * 64 && self.has(id as int)),
            decreases self.words@.len() - i,
        {
            let mut current = self.words[i];
            let ghost word = self.words@[i as int];
            let ghost start = out@.len();
            while current != 0
                invariant
                    i < self.words@.len(),
                    word == self.words@[i as int],
                    self.words@.len() * 64 <= usize::MAX + 1,
                    forall|a: int, b: int| 0 <= a < b < out@.len() ==> #[trigger] out@[a] < #[trigger] out@[b],
                    forall|a: int| 0 <= a < out@.len() ==> #[trigger] out@[a] < i * 64 + 64,
                    forall|j: int| 0 <= j < 64 && #[trigger] bit(current, j) ==> bit(word, j),
                    forall|a: int, j: int| 0 <= a < out@.len() && 0 <= j < 64 && #[trigger] bit(current, j) ==> (#[trigger] out@[a])
                        < i * 64 + j,
                    forall|id: usize|
                        #[trigger] out@.contains(id) <==> (id < i * 64 && self.has(id as int)) || (i * 64 <= id < i * 64 + 64
                            && bit(word, id - i * 64) && !bit(current, id - i * 64)),
                decreases current,
            {
                proof {
                    lemma_lowest_bit(current);
                }
                let t = current.trailing_zeros();
                let id = i * 64 + t as usize;
                let ghost before = out@;
                let ghost old_current = current;
                out.push(id);
                proof {
                    lemma_bit_clear_smaller(current, t as u64);
                }
                current = current & !(1u64 << t);
                proof {
                    assert forall|j: int| 0 <= j < 64 && #[trigger] bit(current, j) implies bit(old_current, j) && j != t by {
                        lemma_bit_clear(old_current, t as u64, j as u64);
                    }
                    assert forall|j: int| 0 <= j < 64 && #[trigger] bit(old_current, j) && j != t implies bit(current, j) by {
                        lemma_bit_clear(old_current, t as u64, j as u64);
                    }
                    assert forall|a: int, j: int| 0 <= a < out@.len() && 0 <= j < 64 && #[trigger] bit(current, j) implies (
                    #[trigger] out@[a]) < i * 64 + j by {
                        lemma_bit_clear(old_current, t as u64, j as u64);
                        if a < before.len() {
                            assert(before[a] < i * 64 + t);
                        }
                    }
                    assert forall|a: int, b: int| 0 <= a < b < out@.len() implies #[trigger] out@[a] < #[trigger] out@[b] by {
                        if b == before.len() {
                            assert(bit(old_current, t as int));
                        }
                    }
                    assert forall|id2: usize|
                        #[trigger] out@.contains(id2) <==> (id2 < i * 64 && self.has(id2 as int)) || (i * 64 <= id2 < i * 64 + 64
                            && bit(word, id2 - i * 64) && !bit(current, id2 - i * 64)) by {
                        if i * 64 <= id2 < i * 64 + 64 {
                            lemma_bit_clear(old_current, t as u64, (id2 - i * 64) as u64);
                        }
                        if out@.contains(id2) && id2 != id {
                            let a = choose|a: int| 0 <= a < out@.len() && out@[a] == id2;
                            assert(before[a] == id2);
                            assert(before.contains(id2));
                        }
                        if before.contains(id2) {
                            let a = choose|a: int| 0 <= a < before.len() && before[a] == id2;
                            assert(out@[a] == id2);
                        }
                        if id2 == id {
                            assert(out@[before.len() as int] == id2);
                        }
                    }
                }
            }
            proof {
                assert forall|id: usize| #[trigger] out@.contains(id) <==> (id < (i + 1) * 64 && self.has(id as int)) by {
                    if i * 64 <= id < i * 64 + 64 {
                        lemma_bit_zero((id - i * 64) as u64);
                        assert(id / 64 == i && id % 64 == id - i * 64) by (nonlinear_arith)
                            requires
                                i * 64 <= id < i * 64 + 64,
                        ;
                        assert(id < self.capacity()) by (nonlinear_arith)
                            requires
                                id < i * 64 + 64,
                                i < self.words@.len(),
                        ;
                    }
                }
            }
            i += 1;
        }
        proof {
            assert forall|id: usize| #[trigger] out@.contains(id) <==> self.has(id as int) by {
                if self.has(id as int) {
                    assert(id < i * 64);
                }
            }
        }
        out
    }

    /// The set of the given ids, with room for the ids below `n_states`.
    pub fn from_ids(n_states: usize, ids: &[usize]) -> (r: Self)
        requires
            forall|k: int| 0 <= k < ids@.len() ==> #[trigger] ids@[k] < n_states,
        ensures
            r.spec_words().len() == Self::words_for(n_states as int),
            forall|id: int| #[trigger] r.has(id) <==> exists|k: int| 0 <= k < ids@.len() && ids@[k] as int == id,
    {
        let mut s = Self::new(n_states);
        let mut k: usize = 0;
        while k < ids.len()
            invariant
                k <= ids@.len(),
                forall|kk: int| 0 <= kk < ids@.len() ==> #[trigger] ids@[kk] < n_states,
                s.spec_words().len() == Self::words_for(n_states as int),
                forall|id: int| #[trigger] s.has(id) <==> exists|kk: int| 0 <= kk < k && ids@[kk] as int == id,
            decreases ids@.len() - k,
        {
            proof {
                vstd::arithmetic::div_mod::lemma_fundamental_div_mod(n_states as int, 64);
                assert(s.capacity() >= n_states);
            }
            s.insert(ids[k]);
            proof {
                assert forall|id: int| #[trigger] s.has(id) <==> exists|kk: int| 0 <= kk < k + 1 && ids@[kk] as int == id by {
                    if id == ids@[k as int] {
                        assert(0 <= k < k + 1 && ids@[k as int] as int == id);
                    }
                }
            }
            k += 1;
        }
        s
    }
}

impl Clone for BitSet {
    fn clone(&self) -> (r: Self)
        ensures
            r.spec_words() == self.spec_words(),
    {
        proof {
            use_type_invariant(self);
        }
        let mut words: Vec<u64> = Vec::new();
        let mut k: usize = 0;
        while k < self.words.len()
            invariant
                k <= self.words@.len(),
                words@ == self.words@.subrange(0, k as int),
            decreases self.words@.len() - k,
        {
            words.push(self.words[k]);
            proof {
                assert(words@ =~= self.words@.subrange(0, k + 1));
            }
            k += 1;
        }
        proof {
            assert(words@ =~= self.words@);
        }
        Self { words }
    }
}

/// The set has room for exactly the ids below `n` and holds the ids of `t`.
pub open spec fn bits_are(s: BitSet, t: Set<usize>, n: int) -> bool {
    &&& s.spec_words().len() == BitSet::words_for(n)
    &&& forall|id: int| #[trigger] s.has(id) <==> (0 <= id < n && t.contains(id as usize))
}

/// The closure of a subset lies in the closure of a superset.
proof fn lemma_closure_mono(nfa: Nfa, a: Set<usize>, b: Set<usize>)
    requires
        a.subset_of(b),
    ensures
        nfa.closure(a).subset_of(nfa.closure(b)),
{
    assert forall|x: usize| nfa.closure(a).contains(x) implies nfa.closure(b).contains(x) by {
        assert forall|t: Set<usize>| #[trigger] nfa.eps_closed(t) && b.subset_of(t) implies t.contains(x) by {
            assert(nfa.in_closure(a, x));
        }
    }
}

/// One step from a subset lies within one step from a superset.
proof fn lemma_step_mono(nfa: Nfa, a: Set<usize>, b: Set<usize>, c: char)
    requires
        a.subset_of(b),
    ensures
        nfa.step_set(a, c).subset_of(nfa.step_set(b, c)),
{
    assert forall|x: usize| nfa.moves(a, c).contains(x) implies nfa.moves(b, c).contains(x) by {
        let (q, k) = choose|q: usize, k: int|
            a.contains(q) && q < nfa.states@.len() && 0 <= k < nfa.states@[q as int].transitions@.len()
                && #[trigger] nfa.states@[q as int].transitions@[k].target == x && nfa.states@[q as int].transitions@[k].set.has(
                c as int,
            );
        assert(b.contains(q));
    }
    lemma_closure_mono(nfa, nfa.moves(a, c), nfa.moves(b, c));
}

/// Every state one step from a subset is one step from one of its states.
proof fn lemma_step_split(nfa: Nfa, s: Set<usize>, c: char, x: usize)
    requires
        nfa.step_set(s, c).contains(x),
    ensures
        exists|q: usize| s.contains(q) && #[trigger] nfa.step_set(set![q], c).contains(x),
{
    let u = Set::new(|y: usize| exists|q: usize| s.contains(q) && #[trigger] nfa.step_set(set![q], c).contains(y));
    assert forall|y: usize| nfa.moves(s, c).contains(y) implies u.contains(y) by {
        let (q, k) = choose|q: usize, k: int|
            s.contains(q) && q < nfa.states@.len() && 0 <= k < nfa.states@[q as int].transitions@.len()
                && #[trigger] nfa.states@[q as int].transitions@[k].target == y && nfa.states@[q as int].transitions@[k].set.has(
                c as int,
            );
        assert(set![q].contains(q));
        assert(nfa.moves(set![q], c).contains(y));
        lemma_closure_closed(nfa, nfa.moves(set![q], c));
        assert(nfa.step_set(set![q], c).contains(y));
    }
    assert forall|p: usize, k: int|
        u.contains(p) && p < nfa.states@.len() && 0 <= k < nfa.states@[p as int].epsilon@.len()
            implies u.contains(#[trigger] nfa.states@[p as int].epsilon@[k]) by {
        let q = choose|q: usize| s.contains(q) && #[trigger] nfa.step_set(set![q], c).contains(p);
        lemma_closure_closed(nfa, nfa.moves(set![q], c));
        assert(nfa.step_set(set![q], c).contains(nfa.states@[p as int].epsilon@[k]));
    }
    assert(nfa.eps_closed(u) && nfa.moves(s, c).subset_of(u));
    assert(nfa.in_closure(nfa.moves(s, c), x));
    assert(u.contains(x));
}

/// An automaton prepared for the search: its start states, and for every
/// state and every part of the alphabet the states one step away.
struct Prepared {
    n_states: usize,
    accept: usize,
    start_ids: Vec<usize>,
    start_set: BitSet,
    delta: Vec<Vec<BitSet>>,
}

/// The prepared tables are those of `nfa` over the characters `parts`.
spec fn prepared_ok(eng: Prepared, nfa: Nfa, parts: Seq<char>) -> bool {
    &&& nfa.wf()
    &&& eng.n_states == nfa.states@.len()
    &&& eng.accept == nfa.accept
    &&& crate::nfa::sorted_ids(eng.start_ids@)
    &&& eng.start_ids@.to_set() == nfa.run(Seq::empty())
    &&& forall|i: int| 0 <= i < eng.start_ids@.len() ==> #[trigger] eng.start_ids@[i] < nfa.states@.len()
    &&& bits_are(eng.start_set, nfa.run(Seq::empty()), eng.n_states as int)
    &&& eng.delta@.len() == eng.n_states
    &&& forall|q: int| 0 <= q < eng.n_states ==> (#[trigger] eng.delta@[q])@.len() == parts.len()
    &&& forall|q: int, p: int|
        0 <= q < eng.n_states && 0 <= p < parts.len() ==> bits_are(
            #[trigger] eng.delta@[q]@[p],
            nfa.step_set(set![q as usize], parts[p]),
            eng.n_states as int,
        )
}

/// The states of `nfa` reached from `run` lie in the automaton.
proof fn lemma_step_in_range(nfa: Nfa, s: Set<usize>, c: char, x: usize)
    requires
        nfa.wf(),
        nfa.step_set(s, c).contains(x),
    ensures
        x < nfa.states@.len(),
{
    let t = Set::new(|y: usize| y < nfa.states@.len());
    assert forall|y: usize| nfa.moves(s, c).contains(y) implies t.contains(y) by {
        let (q, k) = choose|q: usize, k: int|
            s.contains(q) && q < nfa.states@.len() && 0 <= k < nfa.states@[q as int].transitions@.len()
                && #[trigger] nfa.states@[q as int].transitions@[k].target == y && nfa.states@[q as int].transitions@[k].set.has(
                c as int,
            );
        assert(crate::nfa::state_wf(nfa.states@[q as int], nfa.states@.len() as int));
    }
    assert forall|p: usize, k: int|
        t.contains(p) && p < nfa.states@.len() && 0 <= k < nfa.states@[p as int].epsilon@.len()
            implies t.contains(#[trigger] nfa.states@[p as int].epsilon@[k]) by {
        assert(crate::nfa::state_wf(nfa.states@[p as int], nfa.states@.len() as int));
    }
    assert(nfa.eps_closed(t) && nfa.moves(s, c).subset_of(t));
    assert(nfa.in_closure(nfa.moves(s, c), x));
}

impl Prepared {
    fn new(nfa: &Nfa, parts: &Vec<char>) -> (r: Self)
        requires
            nfa.wf(),
        ensures
            prepared_ok(r, *nfa, parts@),
    {
        let n_states = nfa.states.len();
        let mut delta: Vec<Vec<BitSet>> = Vec::new();
        let mut q: usize = 0;
        while q < n_states
            invariant
                nfa.wf(),
                n_states == nfa.states@.len(),
                q <= n_states,
                delta@.len() == q,
                forall|qq: int| 0 <= qq < q ==> (#[trigger] delta@[qq])@.len() == parts@.len(),
                forall|qq: int, p: int|
                    0 <= qq < q && 0 <= p < parts@.len() ==> bits_are(
                        #[trigger] delta@[qq]@[p],
                        nfa.step_set(set![qq as usize], parts@[p]),
                        n_states as int,
                    ),
            decreases n_states - q,
        {
            let mut row: Vec<BitSet> = Vec::new();
            let mut p: usize = 0;
            let single = vec![q];
            proof {
                assert(single@.to_set() =~= set![q]);
            }
            while p < parts.len()
                invariant
                    nfa.wf(),
                    n_states == nfa.states@.len(),
                    q < n_states,
                    single@ == seq![q],
                    single@.to_set() == set![q],
                    p <= parts@.len(),
                    row@.len() == p,
                    forall|pp: int|
                        0 <= pp < p ==> bits_are(#[trigger] row@[pp], nfa.step_set(set![q], parts@[pp]), n_states as int),
                decreases parts@.len() - p,
            {
                let post = nfa.step(single.as_slice(), parts[p]);
                let bits = BitSet::from_ids(n_states, post.as_slice());
                proof {
                    assert forall|id: int| #[trigger] bits.has(id) <==> (0 <= id < n_states && nfa.step_set(set![q], parts@[p as int]).contains(
                        id as usize,
                    )) by {
                        if bits.has(id) {
                            let k = choose|k: int| 0 <= k < post@.len() && post@[k] as int == id;
                            assert(post@.to_set().contains(post@[k]));
                        }
                        if 0 <= id < n_states && nfa.step_set(set![q], parts@[p as int]).contains(id as usize) {
                            assert(post@.to_set().contains(id as usize));
                            let k = choose|k: int| 0 <= k < post@.len() && post@[k] == id as usize;
                            assert(post@[k] as int == id);
                        }
                    }
                }
                row.push(bits);
                p += 1;
            }
            delta.push(row);
            q += 1;
        }
        let start_ids = nfa.start_subset();
        let start_set = BitSet::from_ids(n_states, start_ids.as_slice());
        proof {
            assert forall|id: int| #[trigger] start_set.has(id) <==> (0 <= id < n_states && nfa.run(Seq::empty()).contains(id as usize)) by {
                if start_set.has(id) {
                    let k = choose|k: int| 0 <= k < start_ids@.len() && start_ids@[k] as int == id;
                    assert(start_ids@.to_set().contains(start_ids@[k]));
                }
                if 0 <= id < n_states && nfa.run(Seq::empty()).contains(id as usize) {
                    assert(start_ids@.to_set().contains(id as usize));
                    let k = choose|k: int| 0 <= k < start_ids@.len() && start_ids@[k] == id as usize;
                    assert(start_ids@[k] as int == id);
                }
            }
        }
        Prepared { n_states, accept: nfa.accept, start_ids, start_set, delta }
    }
}

/// Every edge class of `nfa` is among `all`.
spec fn classes_in(nfa: Nfa, all: Seq<CharSet>) -> bool {
    forall|q: int, k: int|
        0 <= q < nfa.states@.len() && 0 <= k < nfa.states@[q].transitions@.len() ==> all.contains(
            #[trigger] nfa.states@[q].transitions@[k].set,
        )
}

/// Two characters that every class treats alike lead everywhere alike.
proof fn lemma_step_alike(nfa: Nfa, all: Seq<CharSet>, c: char, d: char)
    requires
        classes_in(nfa, all),
        same_membership(all, c as int, d as int),
    ensures
        forall|s: Set<usize>| #[trigger] nfa.step_set(s, c) == nfa.step_set(s, d),
{
    assert forall|s: Set<usize>| #[trigger] nfa.step_set(s, c) == nfa.step_set(s, d) by {
        assert forall|x: usize| nfa.moves(s, c).contains(x) == nfa.moves(s, d).contains(x) by {
            if nfa.moves(s, c).contains(x) {
                let (q, k) = choose|q: usize, k: int|
                    s.contains(q) && q < nfa.states@.len() && 0 <= k < nfa.states@[q as int].transitions@.len()
                        && #[trigger] nfa.states@[q as int].transitions@[k].target == x && nfa.states@[q as int].transitions@[k].set.has(
                        c as int,
                    );
                let set = nfa.states@[q as int].transitions@[k].set;
                assert(all.contains(set));
                let m = choose|m: int| 0 <= m < all.len() && all[m] == set;
                assert(all[m].has(c as int) == all[m].has(d as int));
            }
            if nfa.moves(s, d).contains(x) {
                let (q, k) = choose|q: usize, k: int|
                    s.contains(q) && q < nfa.states@.len() && 0 <= k < nfa.states@[q as int].transitions@.len()
                        && #[trigger] nfa.states@[q as int].transitions@[k].target == x && nfa.states@[q as int].transitions@[k].set.has(
                        d as int,
                    );
                let set = nfa.states@[q as int].transitions@[k].set;
                assert(all.contains(set));
                let m = choose|m: int| 0 <= m < all.len() && all[m] == set;
                assert(all[m].has(c as int) == all[m].has(d as int));
            }
        }
        assert(nfa.moves(s, c) =~= nfa.moves(s, d));
    }
}

/// A character no class holds leads nowhere.
proof fn lemma_step_none(nfa: Nfa, all: Seq<CharSet>, c: char)
    requires
        classes_in(nfa, all),
        !any_has(all, c as int),
    ensures
        forall|s: Set<usize>| #[trigger] nfa.step_set(s, c) == Set::<usize>::empty(),
{
    assert forall|s: Set<usize>| #[trigger] nfa.step_set(s, c) == Set::<usize>::empty() by {
        assert forall|x: usize| !nfa.moves(s, c).contains(x) by {
            if nfa.moves(s, c).contains(x) {
                let (q, k) = choose|q: usize, k: int|
                    s.contains(q) && q < nfa.states@.len() && 0 <= k < nfa.states@[q as int].transitions@.len()
                        && #[trigger] nfa.states@[q as int].transitions@[k].target == x && nfa.states@[q as int].transitions@[k].set.has(
                        c as int,
                    );
                let set = nfa.states@[q as int].transitions@[k].set;
                assert(all.contains(set));
                let m = choose|m: int| 0 <= m < all.len() && all[m] == set;
                assert(all[m].has(c as int));
            }
        }
        assert(nfa.moves(s, c) =~= Set::<usize>::empty());
        nfa.lemma_step_from_empty(c);
    }
}

/// The ids of all states of `nfa`.
fn all_ids(nfa: &Nfa) -> (r: Vec<usize>)
    ensures
        r@.len() == nfa.states@.len(),
        forall|i: int| 0 <= i < r@.len() ==> #[trigger] r@[i] == i,
{
    let mut out: Vec<usize> = Vec::new();
    let mut i: usize = 0;
    while i < nfa.states.len()
        invariant
            i <= nfa.states@.len(),
            out@.len() == i,
            forall|k: int| 0 <= k < out@.len() ==> #[trigger] out@[k] == k,
        decreases nfa.states@.len() - i,
    {
        out.push(i);
        i += 1;
    }
    out
}

/// Every character some class holds agrees on all classes with one of the
/// parts.
spec fn parts_cover(all: Seq<CharSet>, parts: Seq<char>) -> bool {
    forall|c: char|
        #[trigger] any_has(all, c as int) ==> exists|i: int|
            0 <= i < parts.len() && same_membership(all, c as int, #[trigger] parts[i] as int)
}

/// Every class of either automaton.
spec fn global_sets(a: Nfa, b: Nfa, ia: Seq<usize>, ib: Seq<usize>) -> Seq<CharSet> {
    crate::nfa::subset_sets(a.states@, ia) + crate::nfa::subset_sets(b.states@, ib)
}

/// One character per range of the alphabet on which every class of both
/// automata agrees, lowest first; with the classes they were drawn from.
fn global_parts(a: &Nfa, b: &Nfa) -> (r: (Vec<char>, Ghost<Seq<CharSet>>))
    requires
        a.wf(),
        b.wf(),
        a.scalar_edges(),
        b.scalar_edges(),
    ensures
        classes_in(*a, r.1@),
        classes_in(*b, r.1@),
        parts_cover(r.1@, r.0@),
{
    let ia = all_ids(a);
    let ib = all_ids(b);
    let mut sets = a.outgoing_sets(ia.as_slice());
    let mut more = b.outgoing_sets(ib.as_slice());
    let ghost sa = sets@;
    let ghost sb = more@;
    sets.append(&mut more);
    let ghost all = global_sets(*a, *b, ia@, ib@);
    proof {
        crate::nfa::lemma_subset_sets(a.states@, ia@);
        crate::nfa::lemma_subset_sets(b.states@, ib@);
        assert(source_sets(sets@) =~= all) by {
            assert(sets@ == sa + sb);
        }
        assert forall|q: int, k: int|
            0 <= q < a.states@.len() && 0 <= k < a.states@[q].transitions@.len() implies all.contains(
            #[trigger] a.states@[q].transitions@[k].set,
        ) by {
            assert(ia@[q] == q);
            let x = a.states@[ia@[q] as int].transitions@[k].set;
            assert(crate::nfa::subset_sets(a.states@, ia@).contains(x));
            let m = choose|m: int| 0 <= m < crate::nfa::subset_sets(a.states@, ia@).len() && crate::nfa::subset_sets(a.states@, ia@)[m] == x;
            assert(all[m] == x);
        }
        assert forall|q: int, k: int|
            0 <= q < b.states@.len() && 0 <= k < b.states@[q].transitions@.len() implies all.contains(
            #[trigger] b.states@[q].transitions@[k].set,
        ) by {
            assert(ib@[q] == q);
            let x = b.states@[ib@[q] as int].transitions@[k].set;
            assert(crate::nfa::subset_sets(b.states@, ib@).contains(x));
            let m = choose|m: int| 0 <= m < crate::nfa::subset_sets(b.states@, ib@).len() && crate::nfa::subset_sets(b.states@, ib@)[m] == x;
            let off = crate::nfa::subset_sets(a.states@, ia@).len();
            assert(all[off + m] == x);
        }
        crate::analysis::lemma_subset_sets_scalar(*a, ia@);
        crate::analysis::lemma_subset_sets_scalar(*b, ib@);
        assert forall|k: int, v: int| 0 <= k < all.len() && #[trigger] all[k].has(v) implies crate::charset::is_scalar(v) by {
            let off = crate::nfa::subset_sets(a.states@, ia@).len();
            if k < off {
                assert(all[k] == crate::nfa::subset_sets(a.states@, ia@)[k]);
            } else {
                assert(all[k] == crate::nfa::subset_sets(b.states@, ib@)[k - off]);
            }
        }
        assert(sets_scalar(all));
    }
    let parts = representative_chars(&sets);
    proof {
        assert(source_sets(sets@) == all);
        assert forall|c: char| #[trigger] any_has(all, c as int) implies exists|i: int|
            0 <= i < parts@.len() && same_membership(all, c as int, #[trigger] parts@[i] as int) by {
            assert(any_has(source_sets(sets@), c as int));
        }
        assert(parts_cover(all, parts@));
    }
    (parts, Ghost(all))
}

/// One step of the subset `sb` on the part `p`, state by state.
fn post(eng: &Prepared, sb: &BitSet, p: usize, nfa: Ghost<Nfa>, parts: Ghost<Seq<char>>, s: Ghost<Set<usize>>) -> (r: BitSet)
    requires
        prepared_ok(*eng, nfa@, parts@),
        p < parts@.len(),
        bits_are(*sb, s@, eng.n_states as int),
        forall|x: usize| #[trigger] s@.contains(x) ==> x < eng.n_states,
    ensures
        bits_are(r, nfa@.step_set(s@, parts@[p as int]), eng.n_states as int),
{
    let ghost c = parts@[p as int];
    let mut res = BitSet::new(eng.n_states);
    let ids = sb.iter();
    let mut k: usize = 0;
    while k < ids.len()
        invariant
            prepared_ok(*eng, nfa@, parts@),
            p < parts@.len(),
            c == parts@[p as int],
            bits_are(*sb, s@, eng.n_states as int),
            forall|i: int, j: int| 0 <= i < j < ids@.len() ==> #[trigger] ids@[i] < #[trigger] ids@[j],
            forall|id: usize| #[trigger] ids@.contains(id) <==> sb.has(id as int),
            k <= ids@.len(),
            res.spec_words().len() == BitSet::words_for(eng.n_states as int),
            forall|id: int|
                #[trigger] res.has(id) <==> (0 <= id < eng.n_states && exists|j: int|
                    0 <= j < k && #[trigger] nfa@.step_set(set![ids@[j]], c).contains(id as usize)),
        decreases ids@.len() - k,
    {
        let st = ids[k];
        proof {
            assert(ids@.contains(st));
            assert(sb.has(st as int));
        }
        let row = &eng.delta[st];
        res.union_with(&row[p]);
        proof {
            let d = eng.delta@[st as int]@[p as int];
            assert(bits_are(d, nfa@.step_set(set![st], c), eng.n_states as int));
            assert forall|id: int|
                #[trigger] res.has(id) <==> (0 <= id < eng.n_states && exists|j: int|
                    0 <= j < k + 1 && #[trigger] nfa@.step_set(set![ids@[j]], c).contains(id as usize)) by {
                if 0 <= id < eng.n_states && nfa@.step_set(set![ids@[k as int]], c).contains(id as usize) {
                    assert(d.has(id));
                }
                if 0 <= id < eng.n_states && (exists|j: int| 0 <= j < k + 1 && #[trigger] nfa@.step_set(set![ids@[j]], c).contains(id as usize)) {
                    let j = choose|j: int| 0 <= j < k + 1 && #[trigger] nfa@.step_set(set![ids@[j]], c).contains(id as usize);
                    if j < k {
                    } else {
                        assert(d.has(id));
                    }
                }
            }
        }
        k += 1;
    }
    proof {
        let goal = nfa@.step_set(s@, c);
        assert forall|id: int| #[trigger] res.has(id) <==> (0 <= id < eng.n_states && goal.contains(id as usize)) by {
            if res.has(id) {
                let j = choose|j: int| 0 <= j < k && #[trigger] nfa@.step_set(set![ids@[j]], c).contains(id as usize);
                assert(ids@.contains(ids@[j]));
                assert(sb.has(ids@[j] as int));
                assert(s@.contains(ids@[j]));
                assert(set![ids@[j]].subset_of(s@));
                lemma_step_mono(nfa@, set![ids@[j]], s@, c);
            }
            if 0 <= id < eng.n_states && goal.contains(id as usize) {
                lemma_step_split(nfa@, s@, c, id as usize);
                let q = choose|q: usize| s@.contains(q) && #[trigger] nfa@.step_set(set![q], c).contains(id as usize);
                assert(sb.has(q as int));
                assert(ids@.contains(q));
                let j = choose|j: int| 0 <= j < ids@.len() && ids@[j] == q;
                assert(nfa@.step_set(set![ids@[j]], c).contains(id as usize));
            }
        }
    }
    res
}

/// A node of the inclusion search: a state of one automaton and a subset of
/// the other, reached by the same string.
type PairNode = SearchNode<(usize, BitSet)>;

/// The string of a node is kept when nodes are added after it.
proof fn lemma_path_prefix<K>(short: Seq<SearchNode<K>>, long: Seq<SearchNode<K>>, i: int)
    requires
        short.len() <= long.len(),
        forall|j: int| 0 <= j < short.len() ==> #[trigger] long[j] == short[j],
        0 <= i < short.len(),
    ensures
        path_word(long, i) == path_word(short, i),
    decreases i,
{
    match short[i].parent {
        Some(edge) => if edge.0 < i {
            lemma_path_prefix(short, long, edge.0 as int);
        },
        None => {},
    }
}

/// Node `j`'s state of `x` and subset of `y` are those its string reaches.
spec fn node_ok(x: Nfa, y: Nfa, nodes: Seq<PairNode>, j: int) -> bool {
    &&& nodes[j].key.0 < x.states@.len()
    &&& x.run(path_word(nodes, j)).contains(nodes[j].key.0)
    &&& bits_are(nodes[j].key.1, y.run(path_word(nodes, j)), y.states@.len() as int)
}

spec fn nodes_ok(x: Nfa, y: Nfa, nodes: Seq<PairNode>) -> bool {
    forall|j: int| 0 <= j < nodes.len() ==> #[trigger] node_ok(x, y, nodes, j)
}

/// The set holds only members of `t`.
spec fn bits_within(s: BitSet, t: Set<usize>) -> bool {
    forall|id: int| #[trigger] s.has(id) ==> t.contains(id as usize)
}

/// Some node no deeper than `d` holds the state `q` with a subset inside `t`.
spec fn covered_within(nodes: Seq<PairNode>, q: usize, t: Set<usize>, d: nat) -> bool {
    exists|j: int|
        0 <= j < nodes.len() && (#[trigger] nodes[j]).key.0 == q && bits_within(nodes[j].key.1, t) && path_word(nodes, j).len()
            <= d
}

/// Covering inside a smaller set, no deeper than `d1`, covers inside a
/// larger set no deeper than `d2`.
proof fn lemma_within_mono(nodes: Seq<PairNode>, q: usize, t1: Set<usize>, t2: Set<usize>, d1: nat, d2: nat)
    requires
        covered_within(nodes, q, t1, d1),
        t1.subset_of(t2),
        d1 <= d2,
    ensures
        covered_within(nodes, q, t2, d2),
{
    let j = choose|j: int|
        0 <= j < nodes.len() && (#[trigger] nodes[j]).key.0 == q && bits_within(nodes[j].key.1, t1) && path_word(nodes, j).len()
            <= d1;
    assert(bits_within(nodes[j].key.1, t2));
}

/// The node table grows by levels: nodes `lo..hi` are the level `k` being
/// expanded, nodes from `hi` on are one deeper, and every node shallower
/// than `k` comes before `lo`.
spec fn levels_ok<K>(nodes: Seq<SearchNode<K>>, lo: int, hi: int, k: int) -> bool {
    &&& forall|j: int| 0 <= j < nodes.len() ==> #[trigger] path_word(nodes, j).len() <= k + 1
    &&& forall|j: int| lo <= j < hi ==> #[trigger] path_word(nodes, j).len() == k
    &&& forall|j: int| hi <= j < nodes.len() ==> #[trigger] path_word(nodes, j).len() == k + 1
    &&& forall|j: int| 0 <= j < nodes.len() && #[trigger] path_word(nodes, j).len() < k ==> j < lo
}

/// Nodes one level deeper keep the levels in order.
proof fn lemma_levels_extend<K>(short: Seq<SearchNode<K>>, long: Seq<SearchNode<K>>, lo: int, hi: int, k: int)
    requires
        levels_ok(short, lo, hi, k),
        hi <= short.len() <= long.len(),
        forall|j: int| 0 <= j < short.len() ==> #[trigger] long[j] == short[j],
        forall|j: int| short.len() <= j < long.len() ==> #[trigger] path_word(long, j).len() == k + 1,
    ensures
        levels_ok(long, lo, hi, k),
{
    assert forall|j: int| 0 <= j < short.len() implies #[trigger] path_word(long, j) == path_word(short, j) by {
        lemma_path_prefix(short, long, j);
    }
    assert forall|j: int| 0 <= j < long.len() implies #[trigger] path_word(long, j).len() <= k + 1 by {
        if j < short.len() {
            assert(path_word(long, j) == path_word(short, j));
        }
    }
    assert forall|j: int| lo <= j < hi implies #[trigger] path_word(long, j).len() == k by {
        assert(path_word(long, j) == path_word(short, j));
    }
    assert forall|j: int| hi <= j < long.len() implies #[trigger] path_word(long, j).len() == k + 1 by {
        if j < short.len() {
            assert(path_word(long, j) == path_word(short, j));
        }
    }
    assert forall|j: int| 0 <= j < long.len() && #[trigger] path_word(long, j).len() < k implies j < lo by {
        if j < short.len() {
            assert(path_word(long, j) == path_word(short, j));
        }
    }
}

/// Once level `k` is expanded, the nodes after it form level `k + 1`.
proof fn lemma_levels_next<K>(nodes: Seq<SearchNode<K>>, lo: int, hi: int, k: int)
    requires
        levels_ok(nodes, lo, hi, k),
        hi <= nodes.len(),
    ensures
        levels_ok(nodes, hi, nodes.len() as int, k + 1),
{
    assert forall|j: int| 0 <= j < nodes.len() && #[trigger] path_word(nodes, j).len() < k + 1 implies j < hi by {
        if j >= hi {
            assert(path_word(nodes, j).len() == k + 1);
        }
    }
}

/// Node `j` has been expanded on part `p`: no state one step on is an
/// accepting state of `x` whose subset misses the accept state of `y`, and
/// each is covered by a node at most one deeper.
spec fn closed_on(x: Nfa, y: Nfa, parts: Seq<char>, nodes: Seq<PairNode>, j: int, p: int) -> bool {
    let c = parts[p];
    let t = y.step_set(y.run(path_word(nodes, j)), c);
    forall|q2: usize|
        #[trigger] x.step_set(set![nodes[j].key.0], c).contains(q2) ==> !(q2 == x.accept && !t.contains(y.accept))
            && covered_within(nodes, q2, t, path_word(nodes, j).len() + 1)
}

/// Every stored subset belongs to a node, and has room for all of `y`.
spec fn chains_ok(nodes: Seq<PairNode>, chains: Seq<Vec<BitSet>>, ny: int) -> bool {
    forall|q: int, i: int|
        0 <= q < chains.len() && 0 <= i < chains[q]@.len() ==> (#[trigger] chains[q]@[i]).spec_words().len()
            == BitSet::words_for(ny) && exists|j: int|
            0 <= j < nodes.len() && nodes[j].key.0 == q && bits_subset(nodes[j].key.1, chains[q]@[i])
}

/// Every id of `a` is in `b`.
spec fn bits_subset(a: BitSet, b: BitSet) -> bool {
    forall|id: int| #[trigger] a.has(id) ==> b.has(id)
}

/// Some stored subset for `qa` lies inside `s`.
fn is_subsumed(chains: &Vec<Vec<BitSet>>, qa: usize, s: &BitSet, ny: Ghost<int>) -> (r: bool)
    requires
        qa < chains@.len(),
        s.spec_words().len() == BitSet::words_for(ny@),
        forall|i: int| 0 <= i < chains@[qa as int]@.len() ==> (#[trigger] chains@[qa as int]@[i]).spec_words().len()
            == BitSet::words_for(ny@),
    ensures
        r == exists|i: int| 0 <= i < chains@[qa as int]@.len() && bits_subset(#[trigger] chains@[qa as int]@[i], *s),
{
    let entry = &chains[qa];
    let mut k: usize = entry.len();
    while k > 0
        invariant
            qa < chains@.len(),
            k <= entry@.len(),
            *entry == chains@[qa as int],
            forall|i: int| k <= i < entry@.len() ==> !bits_subset(#[trigger] entry@[i], *s),
            s.spec_words().len() == BitSet::words_for(ny@),
            forall|i: int| 0 <= i < chains@[qa as int]@.len() ==> (#[trigger] chains@[qa as int]@[i]).spec_words().len()
                == BitSet::words_for(ny@),
        decreases k,
    {
        k -= 1;
        if entry[k].is_subset(s) {
            proof {
                let e = entry@[k as int];
                assert(e.common(s) == e.capacity());
                assert forall|id: int| #[trigger] e.has(id) implies s.has(id) by {
                    assert(0 <= id < e.common(s));
                }
                assert(bits_subset(e, *s));
            }
            return true;
        }
        proof {
            let e = entry@[k as int];
            let id = choose|id: int| !(0 <= id < e.common(s) && #[trigger] e.has(id) ==> s.has(id));
            assert(!bits_subset(e, *s));
        }
    }
    false
}

/// `a` holds no id within both capacities that `b` lacks.
spec fn covered_by(a: BitSet, b: BitSet) -> bool {
    forall|id: int| 0 <= id < a.common(&b) && #[trigger] a.has(id) ==> b.has(id)
}

/// The words of the first `k` stored subsets that do not contain `s`, in
/// order.
spec fn kept_words(stored: Seq<BitSet>, s: BitSet, k: int) -> Seq<Seq<u64>>
    decreases k,
{
    if k <= 0 {
        Seq::empty()
    } else if covered_by(s, stored[k - 1]) {
        kept_words(stored, s, k - 1)
    } else {
        kept_words(stored, s, k - 1).push(stored[k - 1].spec_words())
    }
}

/// Store `s` for `qa`, dropping the stored subsets that contain it.
fn chain_insert(chains: &mut Vec<Vec<BitSet>>, qa: usize, s: BitSet)
    requires
        qa < old(chains)@.len(),
    ensures
        final(chains)@.len() == old(chains)@.len(),
        forall|q: int| 0 <= q < old(chains)@.len() && q != qa ==> #[trigger] final(chains)@[q] == old(chains)@[q],
        forall|i: int|
            0 <= i < final(chains)@[qa as int]@.len() ==> (#[trigger] final(chains)@[qa as int]@[i]).spec_words()
                == s.spec_words() || exists|j: int|
                0 <= j < old(chains)@[qa as int]@.len() && old(chains)@[qa as int]@[j].spec_words()
                    == final(chains)@[qa as int]@[i].spec_words(),
        final(chains)@[qa as int]@.map_values(|b: BitSet| b.spec_words()) == kept_words(
            old(chains)@[qa as int]@,
            s,
            old(chains)@[qa as int]@.len() as int,
        ).push(s.spec_words()),
{
    let ghost before = chains@[qa as int]@;
    let ghost words = s.spec_words();
    let mut kept: Vec<BitSet> = Vec::new();
    let old_entry = &chains[qa];
    let mut k: usize = 0;
    while k < old_entry.len()
        invariant
            old_entry@ == before,
            k <= old_entry@.len(),
            forall|i: int|
                0 <= i < kept@.len() ==> exists|j: int|
                    0 <= j < before.len() && before[j].spec_words() == (#[trigger] kept@[i]).spec_words(),
            kept@.map_values(|b: BitSet| b.spec_words()) == kept_words(before, s, k as int),
        decreases old_entry@.len() - k,
    {
        let ghost prev = kept@;
        if !s.is_subset(&old_entry[k]) {
            let copy = old_entry[k].clone();
            kept.push(copy);
            proof {
                assert(before[k as int].spec_words() == kept@[kept@.len() - 1].spec_words());
                assert(kept@.map_values(|b: BitSet| b.spec_words()) =~= prev.map_values(|b: BitSet| b.spec_words()).push(
                    before[k as int].spec_words(),
                ));
            }
        }
        k += 1;
    }
    let ghost prev = kept@;
    kept.push(s);
    proof {
        assert(kept@.map_values(|b: BitSet| b.spec_words()) =~= prev.map_values(|b: BitSet| b.spec_words()).push(
            s.spec_words(),
        ));
    }
    chains.set(qa, kept);
}

/// The states an automaton reaches lie in it.
proof fn lemma_run_in_range(nfa: Nfa, w: Seq<char>, x: usize)
    requires
        nfa.wf(),
        nfa.run(w).contains(x),
    ensures
        x < nfa.states@.len(),
{
    if w.len() == 0 {
        let t = Set::new(|y: usize| y < nfa.states@.len());
        assert forall|p: usize, k: int|
            t.contains(p) && p < nfa.states@.len() && 0 <= k < nfa.states@[p as int].epsilon@.len()
                implies t.contains(#[trigger] nfa.states@[p as int].epsilon@[k]) by {
            assert(crate::nfa::state_wf(nfa.states@[p as int], nfa.states@.len() as int));
        }
        assert(nfa.eps_closed(t) && set![nfa.start].subset_of(t));
        assert(nfa.in_closure(set![nfa.start], x));
    } else {
        lemma_step_in_range(nfa, nfa.run(w.drop_last()), w.last(), x);
    }
}

/// Adding nodes keeps what held of the earlier ones.
proof fn lemma_nodes_extend(x: Nfa, y: Nfa, parts: Seq<char>, short: Seq<PairNode>, long: Seq<PairNode>)
    requires
        short.len() <= long.len(),
        forall|j: int| 0 <= j < short.len() ==> #[trigger] long[j] == short[j],
    ensures
        forall|j: int| 0 <= j < short.len() && #[trigger] node_ok(x, y, short, j) ==> node_ok(x, y, long, j),
        forall|j: int, p: int|
            0 <= j < short.len() && 0 <= p < parts.len() && #[trigger] closed_on(x, y, parts, short, j, p) ==> closed_on(
                x,
                y,
                parts,
                long,
                j,
                p,
            ),
        forall|q: usize, t: Set<usize>, d: nat| #[trigger] covered_within(short, q, t, d) ==> covered_within(long, q, t, d),
{
    assert forall|q: usize, t: Set<usize>, d: nat| #[trigger] covered_within(short, q, t, d) implies covered_within(
        long,
        q,
        t,
        d,
    ) by {
        let j = choose|j: int|
            0 <= j < short.len() && (#[trigger] short[j]).key.0 == q && bits_within(short[j].key.1, t) && path_word(short, j).len()
                <= d;
        assert(long[j] == short[j]);
        lemma_path_prefix(short, long, j);
    }
    assert forall|j: int| 0 <= j < short.len() && #[trigger] node_ok(x, y, short, j) implies node_ok(x, y, long, j) by {
        lemma_path_prefix(short, long, j);
    }
    assert forall|j: int, p: int|
        0 <= j < short.len() && 0 <= p < parts.len() && #[trigger] closed_on(x, y, parts, short, j, p) implies closed_on(
        x,
        y,
        parts,
        long,
        j,
        p,
    ) by {
        lemma_path_prefix(short, long, j);
        assert(long[j] == short[j]);
    }
}

/// How expanding one node on one part ended.
enum Expand {
    /// Every state one step on is covered.
    Done,
    /// A string in the language of the explored automaton only.
    Found(String),
    /// The node table is full.
    Limit,
}

/// Expand node `id` on part `p`: report a string that `x` accepts and `y`
/// rejects, or add a node for each state one step on that no stored subset
/// covers.
fn expand(
    x: &Nfa,
    y: &Nfa,
    ex: &Prepared,
    ey: &Prepared,
    parts: &Vec<char>,
    nodes: &mut Vec<PairNode>,
    chains: &mut Vec<Vec<BitSet>>,
    id: usize,
    p: usize,
    other: usize,
    max: usize,
) -> (r: Expand)
    requires
        prepared_ok(*ex, *x, parts@),
        prepared_ok(*ey, *y, parts@),
        id < old(nodes)@.len(),
        p < parts@.len(),
        parents_ok(old(nodes)@),
        nodes_ok(*x, *y, old(nodes)@),
        old(chains)@.len() == x.states@.len(),
        chains_ok(old(nodes)@, old(chains)@, y.states@.len() as int),
        old(nodes)@.len() + other <= max,
        forall|j: int|
            0 <= j < old(nodes)@.len() ==> #[trigger] path_word(old(nodes)@, j).len() <= path_word(old(nodes)@, id as int).len()
                + 1,
    ensures
        old(nodes)@.len() <= final(nodes)@.len(),
        forall|j: int| 0 <= j < old(nodes)@.len() ==> #[trigger] final(nodes)@[j] == old(nodes)@[j],
        parents_ok(final(nodes)@),
        nodes_ok(*x, *y, final(nodes)@),
        final(chains)@.len() == x.states@.len(),
        chains_ok(final(nodes)@, final(chains)@, y.states@.len() as int),
        final(nodes)@.len() + other <= max,
        forall|j: int|
            0 <= j < final(nodes)@.len() ==> #[trigger] path_word(final(nodes)@, j).len() <= path_word(old(nodes)@, id as int).len()
                + 1,
        forall|j: int|
            old(nodes)@.len() <= j < final(nodes)@.len() ==> #[trigger] path_word(final(nodes)@, j).len() == path_word(
                old(nodes)@,
                id as int,
            ).len() + 1,
        r is Done ==> closed_on(*x, *y, parts@, final(nodes)@, id as int, p as int),
        r matches Expand::Found(w) ==> x.accepts(w@) && !y.accepts(w@) && w@.len() == path_word(old(nodes)@, id as int).len() + 1,
        r is Limit ==> final(nodes)@.len() + other >= max,
{
    let ghost n0 = nodes@;
    let ghost c = parts@[p as int];
    let ghost w = path_word(nodes@, id as int);
    let ghost ny = y.states@.len() as int;
    let ch = parts[p];
    let qa = nodes[id].key.0;
    proof {
        assert(node_ok(*x, *y, nodes@, id as int));
    }
    let targets_bits = &ex.delta[qa][p];
    proof {
        assert(bits_are(ex.delta@[qa as int]@[p as int], x.step_set(set![qa], c), x.states@.len() as int));
    }
    if targets_bits.is_empty() {
        proof {
            assert forall|q2: usize| #[trigger] x.step_set(set![qa], c).contains(q2) implies false by {
                lemma_step_in_range(*x, set![qa], c, q2);
                assert(targets_bits.has(q2 as int));
            }
        }
        return Expand::Done;
    }
    proof {
        assert forall|v: usize| #[trigger] y.run(w).contains(v) implies v < ey.n_states by {
            lemma_run_in_range(*y, w, v);
        }
    }
    let sb_post = post(ey, &nodes[id].key.1, p, Ghost(*y), Ghost(parts@), Ghost(y.run(w)));
    let ghost t = y.step_set(y.run(w), c);
    proof {
        lemma_run_push(*y, w, c);
        lemma_run_push(*x, w, c);
        assert(set![qa].subset_of(x.run(w)));
        lemma_step_mono(*x, set![qa], x.run(w), c);
    }
    let targets = targets_bits.iter();
    let mut k: usize = 0;
    while k < targets.len()
        invariant
            prepared_ok(*ex, *x, parts@),
            prepared_ok(*ey, *y, parts@),
            p < parts@.len(),
            c == parts@[p as int],
            ch == c,
            id < n0.len(),
            qa == n0[id as int].key.0,
            w == path_word(n0, id as int),
            ny == y.states@.len(),
            t == y.step_set(y.run(w), c),
            y.run(w.push(c)) == t,
            x.step_set(set![qa], c).subset_of(x.run(w.push(c))),
            bits_are(sb_post, t, ny),
            forall|i: int, j: int| 0 <= i < j < targets@.len() ==> #[trigger] targets@[i] < #[trigger] targets@[j],
            forall|v: usize| #[trigger] targets@.contains(v) <==> targets_bits.has(v as int),
            bits_are(*targets_bits, x.step_set(set![qa], c), x.states@.len() as int),
            k <= targets@.len(),
            n0 == old(nodes)@,
            n0.len() <= nodes@.len(),
            forall|j: int| 0 <= j < n0.len() ==> #[trigger] nodes@[j] == n0[j],
            parents_ok(nodes@),
            nodes_ok(*x, *y, nodes@),
            chains@.len() == x.states@.len(),
            chains_ok(nodes@, chains@, ny),
            nodes@.len() + other <= max,
            forall|j: int| 0 <= j < nodes@.len() ==> #[trigger] path_word(nodes@, j).len() <= w.len() + 1,
            forall|j: int| n0.len() <= j < nodes@.len() ==> #[trigger] path_word(nodes@, j).len() == w.len() + 1,
            forall|kk: int|
                0 <= kk < k ==> !(#[trigger] targets@[kk] == x.accept && !t.contains(y.accept)) && covered_within(
                    nodes@,
                    targets@[kk],
                    t,
                    w.len() + 1,
                ),
        decreases targets@.len() - k,
    {
        let qa2 = targets[k];
        proof {
            assert(targets@.contains(qa2));
            assert(x.step_set(set![qa], c).contains(qa2));
        }
        if qa2 == ex.accept && !sb_post.contains(ey.accept) {
            let mut witness = reconstruct(nodes, id);
            proof {
                lemma_path_prefix(n0, nodes@, id as int);
            }
            witness.append(char_text(ch).as_str());
            proof {
                assert(witness@ == w.push(c));
                assert(x.run(w.push(c)).contains(x.accept));
                assert(!t.contains(y.accept));
            }
            return Expand::Found(witness);
        }
        let ghost before = nodes@;
        if is_subsumed(chains, qa2, &sb_post, Ghost(ny)) {
            proof {
                let i = choose|i: int| 0 <= i < chains@[qa2 as int]@.len() && bits_subset(#[trigger] chains@[qa2 as int]@[i], sb_post);
                let j = choose|j: int|
                    0 <= j < nodes@.len() && nodes@[j].key.0 == qa2 && bits_subset(nodes@[j].key.1, chains@[qa2 as int]@[i]);
                assert(bits_within(nodes@[j].key.1, t));
                assert(path_word(nodes@, j).len() <= w.len() + 1);
                assert(covered_within(nodes@, qa2, t, w.len() + 1));
            }
        } else {
            if nodes.len() + other >= max {
                return Expand::Limit;
            }
            let ghost chains0 = chains@;
            chain_insert(chains, qa2, sb_post.clone());
            let node = SearchNode { key: (qa2, sb_post.clone()), parent: Some((id, ch)) };
            nodes.push(node);
            proof {
                let m = before.len() as int;
                assert(nodes@ == before.push(node));
                assert forall|j: int| 0 <= j < before.len() implies #[trigger] nodes@[j] == before[j] by {}
                lemma_nodes_extend(*x, *y, parts@, before, nodes@);
                lemma_path_prefix(before, nodes@, id as int);
                lemma_path_prefix(n0, before, id as int);
                assert(path_word(nodes@, m) == w.push(c));
                lemma_step_in_range(*x, set![qa], c, qa2);
                assert(nodes@[m].key.1.spec_words() == sb_post.spec_words());
                assert forall|id: int| #[trigger] nodes@[m].key.1.has(id) <==> (0 <= id < ny && t.contains(id as usize)) by {
                    assert(nodes@[m].key.1.has(id) == sb_post.has(id));
                }
                assert(bits_are(nodes@[m].key.1, y.run(w.push(c)), ny));
                assert(x.run(w.push(c)).contains(qa2));
                assert(node_ok(*x, *y, nodes@, m));
                assert forall|j: int| 0 <= j < nodes@.len() implies #[trigger] node_ok(*x, *y, nodes@, j) by {
                    if j < m {
                        assert(node_ok(*x, *y, before, j));
                    }
                }
                assert(parents_ok(nodes@));
                assert(bits_within(nodes@[m].key.1, t));
                assert(covered_within(nodes@, qa2, t, w.len() + 1));
                assert forall|j: int| 0 <= j < nodes@.len() implies #[trigger] path_word(nodes@, j).len() <= w.len() + 1 by {
                    if j < m {
                        lemma_path_prefix(before, nodes@, j);
                    }
                }
                assert forall|j: int| n0.len() <= j < nodes@.len() implies #[trigger] path_word(nodes@, j).len() == w.len() + 1 by {
                    if j < m {
                        lemma_path_prefix(before, nodes@, j);
                    }
                }
                assert forall|q: int, i: int|
                    0 <= q < chains@.len() && 0 <= i < chains@[q]@.len() implies (#[trigger] chains@[q]@[i]).spec_words().len()
                        == BitSet::words_for(ny) && exists|j: int|
                        0 <= j < nodes@.len() && nodes@[j].key.0 == q && bits_subset(nodes@[j].key.1, chains@[q]@[i]) by {
                    if q == qa2 {
                        if chains@[q]@[i].spec_words() == sb_post.spec_words() {
                            assert(nodes@[m].key.0 == q && bits_subset(nodes@[m].key.1, chains@[q]@[i]));
                        } else {
                            let jj = choose|jj: int|
                                0 <= jj < chains0[qa2 as int]@.len() && chains0[qa2 as int]@[jj].spec_words()
                                    == chains@[qa2 as int]@[i].spec_words();
                            let j = choose|j: int|
                                0 <= j < before.len() && before[j].key.0 == q && bits_subset(before[j].key.1, chains0[q]@[jj]);
                            assert(nodes@[j] == before[j]);
                            assert(bits_subset(nodes@[j].key.1, chains@[q]@[i]));
                        }
                    } else {
                        assert(chains@[q] == chains0[q]);
                        let j = choose|j: int|
                            0 <= j < before.len() && before[j].key.0 == q && bits_subset(before[j].key.1, chains0[q]@[i]);
                        assert(nodes@[j] == before[j]);
                    }
                }
            }
        }
        proof {
            assert forall|kk: int|
                0 <= kk < k + 1 implies !(#[trigger] targets@[kk] == x.accept && !t.contains(y.accept)) && covered_within(
                nodes@,
                targets@[kk],
                t,
                w.len() + 1,
            ) by {
                if kk < k {
                    lemma_nodes_extend(*x, *y, parts@, before, nodes@);
                }
            }
        }
        k += 1;
    }
    proof {
        lemma_path_prefix(n0, nodes@, id as int);
        assert forall|q2: usize| #[trigger] x.step_set(set![qa], c).contains(q2) implies !(q2 == x.accept && !t.contains(
            y.accept,
        )) && covered_within(nodes@, q2, t, w.len() + 1) by {
            lemma_step_in_range(*x, set![qa], c, q2);
            assert(targets_bits.has(q2 as int));
            assert(targets@.contains(q2));
            let kk = choose|kk: int| 0 <= kk < targets@.len() && targets@[kk] == q2;
        }
        lemma_path_prefix(n0, nodes@, id as int);
        assert(nodes@[id as int] == n0[id as int]);
    }
    Expand::Done
}

/// What holds once every node shallower than `k` is expanded on every part.
spec fn search_below(x: Nfa, y: Nfa, all: Seq<CharSet>, parts: Seq<char>, nodes: Seq<PairNode>, k: int) -> bool {
    &&& x.wf()
    &&& y.wf()
    &&& classes_in(x, all)
    &&& classes_in(y, all)
    &&& parts_cover(all, parts)
    &&& nodes_ok(x, y, nodes)
    &&& forall|q: usize| #[trigger] x.run(Seq::empty()).contains(q) ==> covered_within(nodes, q, y.run(Seq::empty()), 0)
    &&& forall|j: int, p: int|
        0 <= j < nodes.len() && 0 <= p < parts.len() && path_word(nodes, j).len() < k ==> #[trigger] closed_on(
            x,
            y,
            parts,
            nodes,
            j,
            p,
        )
}

/// A character some class holds, and the part standing for it.
proof fn lemma_part_for(x: Nfa, y: Nfa, all: Seq<CharSet>, parts: Seq<char>, c: char) -> (i: int)
    requires
        classes_in(x, all),
        classes_in(y, all),
        parts_cover(all, parts),
        any_has(all, c as int),
    ensures
        0 <= i < parts.len(),
        forall|s: Set<usize>| #[trigger] x.step_set(s, c) == x.step_set(s, parts[i]),
        forall|s: Set<usize>| #[trigger] y.step_set(s, c) == y.step_set(s, parts[i]),
{
    let i = choose|i: int| 0 <= i < parts.len() && same_membership(all, c as int, #[trigger] parts[i] as int);
    lemma_step_alike(x, all, c, parts[i]);
    lemma_step_alike(y, all, c, parts[i]);
    i
}

/// Once every node shallower than `k` is expanded, every state `x` reaches
/// on a string of at most `k` characters is held by a node no deeper than
/// the string, whose subset lies inside the one `y` reaches on it.
proof fn lemma_reach_within(
    x: Nfa,
    y: Nfa,
    all: Seq<CharSet>,
    parts: Seq<char>,
    nodes: Seq<PairNode>,
    k: int,
    w: Seq<char>,
)
    requires
        search_below(x, y, all, parts, nodes, k),
        w.len() <= k,
    ensures
        forall|q: usize| #[trigger] x.run(w).contains(q) ==> covered_within(nodes, q, y.run(w), w.len()),
    decreases w.len(),
{
    if w.len() > 0 {
        let u = w.drop_last();
        let c = w.last();
        lemma_reach_within(x, y, all, parts, nodes, k, u);
        assert(u.push(c) =~= w);
        lemma_run_push(x, u, c);
        lemma_run_push(y, u, c);
        assert forall|q2: usize| #[trigger] x.run(w).contains(q2) implies covered_within(nodes, q2, y.run(w), w.len()) by {
            lemma_step_split(x, x.run(u), c, q2);
            let q = choose|q: usize| x.run(u).contains(q) && #[trigger] x.step_set(set![q], c).contains(q2);
            if !any_has(all, c as int) {
                lemma_step_none(x, all, c);
                assert(x.step_set(set![q], c) == Set::<usize>::empty());
            } else {
                let i = lemma_part_for(x, y, all, parts, c);
                let d = parts[i];
                assert(covered_within(nodes, q, y.run(u), u.len()));
                let j = choose|j: int|
                    0 <= j < nodes.len() && (#[trigger] nodes[j]).key.0 == q && bits_within(nodes[j].key.1, y.run(u))
                        && path_word(nodes, j).len() <= u.len();
                assert(node_ok(x, y, nodes, j));
                assert(closed_on(x, y, parts, nodes, j, i));
                let pj = path_word(nodes, j);
                assert(x.step_set(set![q], c) == x.step_set(set![q], d));
                assert(covered_within(nodes, q2, y.step_set(y.run(pj), d), pj.len() + 1));
                assert(y.run(pj).subset_of(y.run(u))) by {
                    assert forall|v: usize| y.run(pj).contains(v) implies y.run(u).contains(v) by {
                        lemma_run_in_range(y, pj, v);
                        assert(nodes[j].key.1.has(v as int));
                    }
                }
                lemma_step_mono(y, y.run(pj), y.run(u), d);
                assert(y.step_set(y.run(u), c) == y.step_set(y.run(u), d));
                lemma_within_mono(nodes, q2, y.step_set(y.run(pj), d), y.run(w), pj.len() + 1, w.len());
            }
        }
    } else {
        assert(w =~= Seq::<char>::empty());
    }
}

/// Once every node shallower than `k` is expanded, and the empty string is
/// no counterexample, `x` accepts no string of at most `k` characters that
/// `y` rejects.
proof fn lemma_no_shorter(
    x: Nfa,
    y: Nfa,
    all: Seq<CharSet>,
    parts: Seq<char>,
    nodes: Seq<PairNode>,
    k: int,
    w: Seq<char>,
)
    requires
        search_below(x, y, all, parts, nodes, k),
        x.run(Seq::empty()).contains(x.accept) ==> y.run(Seq::empty()).contains(y.accept),
        w.len() <= k,
    ensures
        x.accepts(w) ==> y.accepts(w),
{
    if w.len() > 0 && x.accepts(w) {
        let u = w.drop_last();
        let c = w.last();
        lemma_reach_within(x, y, all, parts, nodes, k, u);
        assert(u.push(c) =~= w);
        lemma_run_push(x, u, c);
        lemma_run_push(y, u, c);
        lemma_step_split(x, x.run(u), c, x.accept);
        let q = choose|q: usize| x.run(u).contains(q) && #[trigger] x.step_set(set![q], c).contains(x.accept);
        if !any_has(all, c as int) {
            lemma_step_none(x, all, c);
            assert(x.step_set(set![q], c) == Set::<usize>::empty());
        } else {
            let i = lemma_part_for(x, y, all, parts, c);
            let d = parts[i];
            assert(covered_within(nodes, q, y.run(u), u.len()));
            let j = choose|j: int|
                0 <= j < nodes.len() && (#[trigger] nodes[j]).key.0 == q && bits_within(nodes[j].key.1, y.run(u))
                    && path_word(nodes, j).len() <= u.len();
            assert(node_ok(x, y, nodes, j));
            assert(closed_on(x, y, parts, nodes, j, i));
            let pj = path_word(nodes, j);
            assert(x.step_set(set![q], c) == x.step_set(set![q], d));
            assert(y.step_set(y.run(pj), d).contains(y.accept));
            assert(y.run(pj).subset_of(y.run(u))) by {
                assert forall|v: usize| y.run(pj).contains(v) implies y.run(u).contains(v) by {
                    lemma_run_in_range(y, pj, v);
                    assert(nodes[j].key.1.has(v as int));
                }
            }
            lemma_step_mono(y, y.run(pj), y.run(u), d);
            assert(y.step_set(y.run(u), c) == y.step_set(y.run(u), d));
        }
    } else if w.len() == 0 {
        assert(w =~= Seq::<char>::empty());
    }
}

/// Seed the search of `x` against `y` with the start states of `x`, each
/// paired with the start subset of `y`; false when the node table filled.
fn seed(
    x: &Nfa,
    y: &Nfa,
    ex: &Prepared,
    ey: &Prepared,
    parts: &Vec<char>,
    nodes: &mut Vec<PairNode>,
    chains: &mut Vec<Vec<BitSet>>,
    other: usize,
    max: usize,
) -> (r: bool)
    requires
        prepared_ok(*ex, *x, parts@),
        prepared_ok(*ey, *y, parts@),
        old(nodes)@.len() == 0,
        old(chains)@.len() == x.states@.len(),
        chains_ok(old(nodes)@, old(chains)@, y.states@.len() as int),
        other <= max,
    ensures
        parents_ok(final(nodes)@),
        nodes_ok(*x, *y, final(nodes)@),
        final(chains)@.len() == x.states@.len(),
        chains_ok(final(nodes)@, final(chains)@, y.states@.len() as int),
        final(nodes)@.len() + other <= max,
        r ==> forall|q: usize| #[trigger] x.run(Seq::empty()).contains(q) ==> covered_within(final(nodes)@, q, y.run(Seq::empty()), 0),
        !r ==> final(nodes)@.len() + other >= max,
        forall|j: int| 0 <= j < final(nodes)@.len() ==> #[trigger] path_word(final(nodes)@, j).len() == 0,
{
    let ghost ny = y.states@.len() as int;
    let ghost e = Seq::<char>::empty();
    let mut k: usize = 0;
    while k < ex.start_ids.len()
        invariant
            prepared_ok(*ex, *x, parts@),
            prepared_ok(*ey, *y, parts@),
            ny == y.states@.len(),
            e == Seq::<char>::empty(),
            k <= ex.start_ids@.len(),
            parents_ok(nodes@),
            nodes_ok(*x, *y, nodes@),
            forall|j: int| 0 <= j < nodes@.len() ==> (#[trigger] nodes@[j]).parent is None,
            chains@.len() == x.states@.len(),
            chains_ok(nodes@, chains@, ny),
            nodes@.len() + other <= max,
            forall|kk: int| 0 <= kk < k ==> covered_within(nodes@, #[trigger] ex.start_ids@[kk], y.run(e), 0),
            forall|j: int| 0 <= j < nodes@.len() ==> #[trigger] path_word(nodes@, j).len() == 0,
        decreases ex.start_ids@.len() - k,
    {
        let qa = ex.start_ids[k];
        let ghost before = nodes@;
        if is_subsumed(chains, qa, &ey.start_set, Ghost(ny)) {
            proof {
                let i = choose|i: int| 0 <= i < chains@[qa as int]@.len() && bits_subset(#[trigger] chains@[qa as int]@[i], ey.start_set);
                let j = choose|j: int|
                    0 <= j < nodes@.len() && nodes@[j].key.0 == qa && bits_subset(nodes@[j].key.1, chains@[qa as int]@[i]);
                assert(bits_within(nodes@[j].key.1, y.run(e)));
                assert(path_word(nodes@, j).len() == 0);
                assert(covered_within(nodes@, qa, y.run(e), 0));
            }
        } else {
            if nodes.len() + other >= max {
                return false;
            }
            let ghost chains0 = chains@;
            chain_insert(chains, qa, ey.start_set.clone());
            let node = SearchNode { key: (qa, ey.start_set.clone()), parent: None };
            nodes.push(node);
            proof {
                let m = before.len() as int;
                assert(nodes@ == before.push(node));
                assert forall|j: int| 0 <= j < before.len() implies #[trigger] nodes@[j] == before[j] by {}
                lemma_nodes_extend(*x, *y, parts@, before, nodes@);
                assert(path_word(nodes@, m) =~= e);
                assert(ex.start_ids@.to_set().contains(qa));
                assert(nodes@[m].key.1.spec_words() == ey.start_set.spec_words());
                assert forall|id: int| #[trigger] nodes@[m].key.1.has(id) <==> (0 <= id < ny && y.run(e).contains(id as usize)) by {
                    assert(nodes@[m].key.1.has(id) == ey.start_set.has(id));
                }
                assert(node_ok(*x, *y, nodes@, m));
                assert forall|j: int| 0 <= j < nodes@.len() implies #[trigger] node_ok(*x, *y, nodes@, j) by {
                    if j < m {
                        assert(node_ok(*x, *y, before, j));
                    }
                }
                assert(parents_ok(nodes@));
                assert(bits_within(nodes@[m].key.1, y.run(e)));
                assert(covered_within(nodes@, qa, y.run(e), 0));
                assert forall|j: int| 0 <= j < nodes@.len() implies #[trigger] path_word(nodes@, j).len() == 0 by {
                    if j < m {
                        lemma_path_prefix(before, nodes@, j);
                    }
                }
                assert forall|q: int, i: int|
                    0 <= q < chains@.len() && 0 <= i < chains@[q]@.len() implies (#[trigger] chains@[q]@[i]).spec_words().len()
                        == BitSet::words_for(ny) && exists|j: int|
                        0 <= j < nodes@.len() && nodes@[j].key.0 == q && bits_subset(nodes@[j].key.1, chains@[q]@[i]) by {
                    if q == qa {
                        if chains@[q]@[i].spec_words() == ey.start_set.spec_words() {
                            assert(nodes@[m].key.0 == q && bits_subset(nodes@[m].key.1, chains@[q]@[i]));
                        } else {
                            let jj = choose|jj: int|
                                0 <= jj < chains0[qa as int]@.len() && chains0[qa as int]@[jj].spec_words()
                                    == chains@[qa as int]@[i].spec_words();
                            let j = choose|j: int|
                                0 <= j < before.len() && before[j].key.0 == q && bits_subset(before[j].key.1, chains0[q]@[jj]);
                            assert(nodes@[j] == before[j]);
                            assert(bits_subset(nodes@[j].key.1, chains@[q]@[i]));
                        }
                    } else {
                        assert(chains@[q] == chains0[q]);
                        let j = choose|j: int|
                            0 <= j < before.len() && before[j].key.0 == q && bits_subset(before[j].key.1, chains0[q]@[i]);
                        assert(nodes@[j] == before[j]);
                    }
                }
            }
        }
        proof {
            assert forall|kk: int| 0 <= kk < k + 1 implies covered_within(nodes@, #[trigger] ex.start_ids@[kk], y.run(e), 0) by {
                if kk < k {
                    lemma_nodes_extend(*x, *y, parts@, before, nodes@);
                }
            }
        }
        k += 1;
    }
    proof {
        assert forall|q: usize| #[trigger] x.run(e).contains(q) implies covered_within(nodes@, q, y.run(e), 0) by {
            assert(ex.start_ids@.to_set().contains(q));
            let kk = choose|kk: int| 0 <= kk < ex.start_ids@.len() && ex.start_ids@[kk] == q;
        }
    }
    true
}

/// A search result without a witness.
fn stopped(status: BackendStatus, visited: usize, generated: usize, started: &Instant) -> (r: BackendResult)
    ensures
        r.status == status,
        r.witness is None,
        r.relation is None,
        r.visited_states == visited,
        r.generated_transitions == generated,
        r.witness_extraction_ms == 0,
{
    BackendResult {
        status,
        witness: None,
        relation: None,
        visited_states: visited,
        generated_transitions: generated,
        analysis_ms: elapsed_ms(started),
        witness_extraction_ms: 0,
    }
}

/// A search result carrying the witness `witness`.
fn found(witness: String, relation_id: &str, visited: usize, generated: usize, started: &Instant) -> (r: BackendResult)
    ensures
        r.status == BackendStatus::Found,
        r.witness == Some(witness),
        r.relation matches Some(rel) && rel@ == relation_id@,
        r.visited_states == visited,
        r.generated_transitions == generated,
        r.witness_extraction_ms == 0,
{
    BackendResult {
        status: BackendStatus::Found,
        witness: Some(witness),
        relation: Some(relation_id.to_owned()),
        visited_states: visited,
        generated_transitions: generated,
        analysis_ms: elapsed_ms(started),
        witness_extraction_ms: 0,
    }
}

/// Empty chains, one per state of `x`.
fn empty_chains(n: usize) -> (r: Vec<Vec<BitSet>>)
    ensures
        r@.len() == n,
        forall|q: int| 0 <= q < n ==> (#[trigger] r@[q])@.len() == 0,
{
    let mut out: Vec<Vec<BitSet>> = Vec::new();
    let mut i: usize = 0;
    while i < n
        invariant
            i <= n,
            out@.len() == i,
            forall|q: int| 0 <= q < i ==> (#[trigger] out@[q])@.len() == 0,
        decreases n - i,
    {
        out.push(Vec::new());
        i += 1;
    }
    out
}

/// Does every string `a` accepts lie in the language of `b`? A string
/// found is a shortest one `a` accepts and `b` rejects; running out of
/// pairs proves that none exists.
fn check_included<K: Clock>(a: &Nfa, b: &Nfa, config: &Config, clock: &K) -> (r: BackendResult)
    requires
        a.wf(),
        b.wf(),
        a.scalar_edges(),
        b.scalar_edges(),
    ensures
        (r.status == BackendStatus::Found) == (r.witness is Some),
        (r.status == BackendStatus::Found) == (r.relation is Some),
        r.status == BackendStatus::Found ==> (r.witness matches Some(w) && r.relation matches Some(rel) && a.accepts(w@)
            && !b.accepts(w@) && rel@ == relation::LEFT_ONLY@),
        r.status == BackendStatus::Found ==> (r.witness matches Some(w) && forall|u: Seq<char>|
            u.len() < w@.len() ==> !(#[trigger] a.accepts(u) && !b.accepts(u))),
        a.accepts(Seq::empty()) && !b.accepts(Seq::empty()) ==> (r.status == BackendStatus::Found && (r.witness matches Some(
            w,
        ) && w@ == Seq::<char>::empty())),
        r.status == BackendStatus::Exhausted ==> forall|w: Seq<char>| #[trigger] a.accepts(w) ==> b.accepts(w),
        r.status == BackendStatus::StateLimit ==> r.visited_states >= config.max_product_states,
        r.status != BackendStatus::Found ==> r.visited_states <= config.max_product_states,
        r.visited_states <= config.max_product_states + 1,
        r.status != BackendStatus::Found ==> r.witness_extraction_ms == 0,
        r.status == BackendStatus::Timeout ==> exists|t: u128| #[trigger] clock.may_read(t) && t >= config.timeout_ms as u128,
{
    let started = instant_now();
    let (parts, Ghost(all)) = global_parts(a, b);
    let eng_a = Prepared::new(a, &parts);
    let eng_b = Prepared::new(b, &parts);
    let ghost e = Seq::<char>::empty();
    let max = config.max_product_states;
    let mut generated: usize = 0;
    let mut k: usize = 0;
    while k < eng_a.start_ids.len()
        invariant
            prepared_ok(eng_a, *a, parts@),
            prepared_ok(eng_b, *b, parts@),
            e == Seq::<char>::empty(),
            k <= eng_a.start_ids@.len(),
            forall|kk: int|
                0 <= kk < k ==> !(#[trigger] eng_a.start_ids@[kk] == a.accept && !b.run(e).contains(b.accept)),
        decreases eng_a.start_ids@.len() - k,
    {
        if eng_a.start_ids[k] == eng_a.accept && !eng_b.start_set.contains(eng_b.accept) {
            proof {
                assert(eng_a.start_ids@.to_set().contains(a.accept));
                assert(!b.run(e).contains(b.accept));
            }
            return found(String::new(), relation::LEFT_ONLY, 1, generated, &started);
        }
        k += 1;
    }
    proof {
        if a.run(e).contains(a.accept) {
            assert(eng_a.start_ids@.to_set().contains(a.accept));
            let kk = choose|kk: int| 0 <= kk < eng_a.start_ids@.len() && eng_a.start_ids@[kk] == a.accept;
        }
    }
    let mut chains = empty_chains(eng_a.n_states);
    let mut nodes: Vec<PairNode> = Vec::new();
    if !seed(a, b, &eng_a, &eng_b, &parts, &mut nodes, &mut chains, 0, max) {
        return stopped(BackendStatus::StateLimit, nodes.len(), generated, &started);
    }
    let mut lo: usize = 0;
    let mut hi: usize = nodes.len();
    let ghost mut level: int = 0;
    while lo < hi
        invariant
            prepared_ok(eng_a, *a, parts@),
            prepared_ok(eng_b, *b, parts@),
            a.wf(),
            b.wf(),
            classes_in(*a, all),
            classes_in(*b, all),
            parts_cover(all, parts@),
            e == Seq::<char>::empty(),
            max == config.max_product_states,
            lo <= hi <= nodes@.len() <= max,
            hi == nodes@.len(),
            parents_ok(nodes@),
            nodes_ok(*a, *b, nodes@),
            chains@.len() == a.states@.len(),
            chains_ok(nodes@, chains@, b.states@.len() as int),
            forall|q: usize| #[trigger] a.run(e).contains(q) ==> covered_within(nodes@, q, b.run(e), 0),
            a.run(e).contains(a.accept) ==> b.run(e).contains(b.accept),
            forall|j: int, p: int| 0 <= j < lo && 0 <= p < parts@.len() ==> #[trigger] closed_on(*a, *b, parts@, nodes@, j, p),
            levels_ok(nodes@, lo as int, hi as int, level),
        decreases max - lo,
    {
        let reading = clock.read_ms();
        if reading >= config.timeout_ms as u128 {
            return stopped(BackendStatus::Timeout, nodes.len(), generated, &started);
        }
        let mut p: usize = 0;
        while p < parts.len()
            invariant
                prepared_ok(eng_a, *a, parts@),
                prepared_ok(eng_b, *b, parts@),
                a.wf(),
                b.wf(),
                classes_in(*a, all),
                classes_in(*b, all),
                parts_cover(all, parts@),
                e == Seq::<char>::empty(),
                a.run(e).contains(a.accept) ==> b.run(e).contains(b.accept),
                max == config.max_product_states,
                lo < hi <= nodes@.len() <= max,
                p <= parts@.len(),
                parents_ok(nodes@),
                nodes_ok(*a, *b, nodes@),
                chains@.len() == a.states@.len(),
                chains_ok(nodes@, chains@, b.states@.len() as int),
                forall|q: usize| #[trigger] a.run(e).contains(q) ==> covered_within(nodes@, q, b.run(e), 0),
                forall|j: int, pp: int|
                    0 <= j < lo && 0 <= pp < parts@.len() ==> #[trigger] closed_on(*a, *b, parts@, nodes@, j, pp),
                forall|j: int, pp: int| lo <= j < hi && 0 <= pp < p ==> #[trigger] closed_on(*a, *b, parts@, nodes@, j, pp),
                levels_ok(nodes@, lo as int, hi as int, level),
            decreases parts@.len() - p,
        {
            let reading = clock.read_ms();
            if reading >= config.timeout_ms as u128 {
                return stopped(BackendStatus::Timeout, nodes.len(), generated, &started);
            }
            let mut id: usize = lo;
            while id < hi
                invariant
                    prepared_ok(eng_a, *a, parts@),
                    prepared_ok(eng_b, *b, parts@),
                    a.wf(),
                    b.wf(),
                    classes_in(*a, all),
                    classes_in(*b, all),
                    parts_cover(all, parts@),
                    e == Seq::<char>::empty(),
                    a.run(e).contains(a.accept) ==> b.run(e).contains(b.accept),
                    max == config.max_product_states,
                    lo <= id <= hi <= nodes@.len() <= max,
                    p < parts@.len(),
                    parents_ok(nodes@),
                    nodes_ok(*a, *b, nodes@),
                    chains@.len() == a.states@.len(),
                    chains_ok(nodes@, chains@, b.states@.len() as int),
                    forall|q: usize| #[trigger] a.run(e).contains(q) ==> covered_within(nodes@, q, b.run(e), 0),
                    forall|j: int, pp: int|
                        0 <= j < lo && 0 <= pp < parts@.len() ==> #[trigger] closed_on(*a, *b, parts@, nodes@, j, pp),
                    forall|j: int, pp: int| lo <= j < hi && 0 <= pp < p ==> #[trigger] closed_on(*a, *b, parts@, nodes@, j, pp),
                    forall|j: int| lo <= j < id ==> #[trigger] closed_on(*a, *b, parts@, nodes@, j, p as int),
                    levels_ok(nodes@, lo as int, hi as int, level),
                decreases hi - id,
            {
                generated = generated.saturating_add(1);
                let ghost before = nodes@;
                proof {
                    assert(path_word(before, id as int).len() == level);
                }
                let step = expand(a, b, &eng_a, &eng_b, &parts, &mut nodes, &mut chains, id, p, 0, max);
                proof {
                    lemma_nodes_extend(*a, *b, parts@, before, nodes@);
                    lemma_levels_extend(before, nodes@, lo as int, hi as int, level);
                    assert forall|q: usize| #[trigger] a.run(e).contains(q) implies covered_within(nodes@, q, b.run(e), 0) by {
                        assert(covered_within(before, q, b.run(e), 0));
                    }
                    assert forall|j: int, pp: int|
                        0 <= j < lo && 0 <= pp < parts@.len() implies #[trigger] closed_on(*a, *b, parts@, nodes@, j, pp) by {
                        assert(closed_on(*a, *b, parts@, before, j, pp));
                    }
                }
                match step {
                    Expand::Done => {},
                    Expand::Found(witness) => {
                        proof {
                            assert(search_below(*a, *b, all, parts@, nodes@, level));
                            assert forall|u: Seq<char>| u.len() < witness@.len() implies !(#[trigger] a.accepts(u) && !b.accepts(
                                u,
                            )) by {
                                lemma_no_shorter(*a, *b, all, parts@, nodes@, level, u);
                            }
                        }
                        return found(witness, relation::LEFT_ONLY, nodes.len().saturating_add(1), generated, &started);
                    },
                    Expand::Limit => {
                        return stopped(BackendStatus::StateLimit, nodes.len(), generated, &started);
                    },
                }
                proof {
                    assert forall|j: int, pp: int| lo <= j < hi && 0 <= pp < p implies #[trigger] closed_on(
                        *a,
                        *b,
                        parts@,
                        nodes@,
                        j,
                        pp,
                    ) by {
                        assert(closed_on(*a, *b, parts@, before, j, pp));
                    }
                    assert forall|j: int| lo <= j < id + 1 implies #[trigger] closed_on(*a, *b, parts@, nodes@, j, p as int) by {
                        if j < id {
                            assert(closed_on(*a, *b, parts@, before, j, p as int));
                        }
                    }
                }
                id += 1;
            }
            p += 1;
        }
        proof {
            lemma_levels_next(nodes@, lo as int, hi as int, level);
            level = level + 1;
        }
        lo = hi;
        hi = nodes.len();
    }
    proof {
        assert forall|w: Seq<char>| #[trigger] a.accepts(w) implies b.accepts(w) by {
            assert(search_below(*a, *b, all, parts@, nodes@, w.len() as int));
            lemma_no_shorter(*a, *b, all, parts@, nodes@, w.len() as int, w);
        }
    }
    stopped(BackendStatus::Exhausted, nodes.len(), generated, &started)
}

/// Some start state of the prepared automaton is its accept state.
fn accepts_empty(eng: &Prepared, nfa: Ghost<Nfa>, parts: Ghost<Seq<char>>) -> (r: bool)
    requires
        prepared_ok(*eng, nfa@, parts@),
    ensures
        r == nfa@.run(Seq::empty()).contains(nfa@.accept),
{
    let mut k: usize = 0;
    while k < eng.start_ids.len()
        invariant
            prepared_ok(*eng, nfa@, parts@),
            k <= eng.start_ids@.len(),
            forall|kk: int| 0 <= kk < k ==> #[trigger] eng.start_ids@[kk] != eng.accept,
        decreases eng.start_ids@.len() - k,
    {
        if eng.start_ids[k] == eng.accept {
            proof {
                assert(eng.start_ids@.to_set().contains(eng.accept));
            }
            return true;
        }
        k += 1;
    }
    proof {
        if nfa@.run(Seq::empty()).contains(nfa@.accept) {
            assert(eng.start_ids@.to_set().contains(nfa@.accept));
            let kk = choose|kk: int| 0 <= kk < eng.start_ids@.len() && eng.start_ids@[kk] == nfa@.accept;
        }
    }
    false
}

/// The invariant of one side of the equivalence search, at level `k`.
spec fn side_ok(
    x: Nfa,
    y: Nfa,
    parts: Seq<char>,
    nodes: Seq<PairNode>,
    chains: Seq<Vec<BitSet>>,
    lo: int,
    hi: int,
    k: int,
) -> bool {
    &&& 0 <= lo <= hi <= nodes.len()
    &&& parents_ok(nodes)
    &&& nodes_ok(x, y, nodes)
    &&& chains.len() == x.states@.len()
    &&& chains_ok(nodes, chains, y.states@.len() as int)
    &&& forall|q: usize| #[trigger] x.run(Seq::empty()).contains(q) ==> covered_within(nodes, q, y.run(Seq::empty()), 0)
    &&& forall|j: int, p: int| 0 <= j < lo && 0 <= p < parts.len() ==> #[trigger] closed_on(x, y, parts, nodes, j, p)
    &&& levels_ok(nodes, lo, hi, k)
}

/// Adding nodes to a side keeps its invariant and what was closed.
proof fn lemma_side_extend(
    x: Nfa,
    y: Nfa,
    parts: Seq<char>,
    short: Seq<PairNode>,
    long: Seq<PairNode>,
    lo: int,
    hi: int,
    k: int,
    p: int,
    id: int,
)
    requires
        short.len() <= long.len(),
        forall|j: int| 0 <= j < short.len() ==> #[trigger] long[j] == short[j],
        forall|j: int| short.len() <= j < long.len() ==> #[trigger] path_word(long, j).len() == k + 1,
        forall|q: usize| #[trigger] x.run(Seq::empty()).contains(q) ==> covered_within(short, q, y.run(Seq::empty()), 0),
        forall|j: int, pp: int| 0 <= j < lo && 0 <= pp < parts.len() ==> #[trigger] closed_on(x, y, parts, short, j, pp),
        forall|j: int, pp: int| lo <= j < hi && 0 <= pp < p ==> #[trigger] closed_on(x, y, parts, short, j, pp),
        forall|j: int| lo <= j < id ==> #[trigger] closed_on(x, y, parts, short, j, p),
        levels_ok(short, lo, hi, k),
        0 <= lo <= id <= hi <= short.len(),
        0 <= p < parts.len(),
    ensures
        forall|q: usize| #[trigger] x.run(Seq::empty()).contains(q) ==> covered_within(long, q, y.run(Seq::empty()), 0),
        forall|j: int, pp: int| 0 <= j < lo && 0 <= pp < parts.len() ==> #[trigger] closed_on(x, y, parts, long, j, pp),
        forall|j: int, pp: int| lo <= j < hi && 0 <= pp < p ==> #[trigger] closed_on(x, y, parts, long, j, pp),
        forall|j: int| lo <= j < id ==> #[trigger] closed_on(x, y, parts, long, j, p),
        levels_ok(long, lo, hi, k),
{
    lemma_nodes_extend(x, y, parts, short, long);
    lemma_levels_extend(short, long, lo, hi, k);
    assert forall|q: usize| #[trigger] x.run(Seq::empty()).contains(q) implies covered_within(long, q, y.run(Seq::empty()), 0) by {
        assert(covered_within(short, q, y.run(Seq::empty()), 0));
    }
    assert forall|j: int, pp: int| 0 <= j < lo && 0 <= pp < parts.len() implies #[trigger] closed_on(x, y, parts, long, j, pp) by {
        assert(closed_on(x, y, parts, short, j, pp));
    }
    assert forall|j: int, pp: int| lo <= j < hi && 0 <= pp < p implies #[trigger] closed_on(x, y, parts, long, j, pp) by {
        assert(closed_on(x, y, parts, short, j, pp));
    }
    assert forall|j: int| lo <= j < id implies #[trigger] closed_on(x, y, parts, long, j, p) by {
        assert(closed_on(x, y, parts, short, j, p));
    }
}

/// At level `k` a side has expanded every node shallower than `k`.
proof fn lemma_side_below(
    x: Nfa,
    y: Nfa,
    all: Seq<CharSet>,
    parts: Seq<char>,
    nodes: Seq<PairNode>,
    chains: Seq<Vec<BitSet>>,
    lo: int,
    hi: int,
    k: int,
)
    requires
        x.wf(),
        y.wf(),
        classes_in(x, all),
        classes_in(y, all),
        parts_cover(all, parts),
        side_ok(x, y, parts, nodes, chains, lo, hi, k),
    ensures
        search_below(x, y, all, parts, nodes, k),
{
    assert forall|j: int, p: int|
        0 <= j < nodes.len() && 0 <= p < parts.len() && path_word(nodes, j).len() < k implies #[trigger] closed_on(
        x,
        y,
        parts,
        nodes,
        j,
        p,
    ) by {
        assert(j < lo);
    }
}

/// Are the two languages equal? A string found is a shortest one in
/// exactly one of them (named by the relation); running out of pairs on
/// both sides proves the languages equal.
fn check_equivalent<K: Clock>(a: &Nfa, b: &Nfa, config: &Config, clock: &K) -> (r: BackendResult)
    requires
        a.wf(),
        b.wf(),
        a.scalar_edges(),
        b.scalar_edges(),
    ensures
        (r.status == BackendStatus::Found) == (r.witness is Some),
        (r.status == BackendStatus::Found) == (r.relation is Some),
        r.status == BackendStatus::Found ==> (r.witness matches Some(w) && r.relation matches Some(rel) && ((a.accepts(w@)
            && !b.accepts(w@) && rel@ == relation::LEFT_ONLY@) || (!a.accepts(w@) && b.accepts(w@) && rel@
            == relation::RIGHT_ONLY@))),
        r.status == BackendStatus::Found ==> (r.witness matches Some(w) && forall|u: Seq<char>|
            u.len() < w@.len() ==> #[trigger] a.accepts(u) == b.accepts(u)),
        a.accepts(Seq::empty()) != b.accepts(Seq::empty()) ==> (r.status == BackendStatus::Found && (r.witness matches Some(
            w,
        ) && w@ == Seq::<char>::empty())),
        r.status == BackendStatus::Exhausted ==> forall|w: Seq<char>| #[trigger] a.accepts(w) == b.accepts(w),
        r.status == BackendStatus::StateLimit ==> r.visited_states >= config.max_product_states,
        r.status != BackendStatus::Found ==> r.visited_states <= config.max_product_states,
        r.visited_states <= config.max_product_states + 1,
        r.status != BackendStatus::Found ==> r.witness_extraction_ms == 0,
        r.status == BackendStatus::Timeout ==> exists|t: u128| #[trigger] clock.may_read(t) && t >= config.timeout_ms as u128,
{
    let started = instant_now();
    let (parts, Ghost(all)) = global_parts(a, b);
    let eng_a = Prepared::new(a, &parts);
    let eng_b = Prepared::new(b, &parts);
    let ghost e = Seq::<char>::empty();
    let max = config.max_product_states;
    let a_eps = accepts_empty(&eng_a, Ghost(*a), Ghost(parts@));
    let b_eps = accepts_empty(&eng_b, Ghost(*b), Ghost(parts@));
    if a_eps && !b_eps {
        return found(String::new(), relation::LEFT_ONLY, 1, 0, &started);
    }
    if !a_eps && b_eps {
        return found(String::new(), relation::RIGHT_ONLY, 1, 0, &started);
    }
    let mut generated: usize = 0;
    let mut chains_ab = empty_chains(eng_a.n_states);
    let mut chains_ba = empty_chains(eng_b.n_states);
    let mut nodes_ab: Vec<PairNode> = Vec::new();
    let mut nodes_ba: Vec<PairNode> = Vec::new();
    if !seed(a, b, &eng_a, &eng_b, &parts, &mut nodes_ab, &mut chains_ab, 0, max) {
        return stopped(BackendStatus::StateLimit, nodes_ab.len(), generated, &started);
    }
    if !seed(b, a, &eng_b, &eng_a, &parts, &mut nodes_ba, &mut chains_ba, nodes_ab.len(), max) {
        return stopped(BackendStatus::StateLimit, nodes_ab.len() + nodes_ba.len(), generated, &started);
    }
    let mut lo_ab: usize = 0;
    let mut hi_ab: usize = nodes_ab.len();
    let mut lo_ba: usize = 0;
    let mut hi_ba: usize = nodes_ba.len();
    let ghost mut level: int = 0;
    while lo_ab < hi_ab || lo_ba < hi_ba
        invariant
            prepared_ok(eng_a, *a, parts@),
            prepared_ok(eng_b, *b, parts@),
            a.wf(),
            b.wf(),
            classes_in(*a, all),
            classes_in(*b, all),
            parts_cover(all, parts@),
            e == Seq::<char>::empty(),
            max == config.max_product_states,
            a.run(e).contains(a.accept) == b.run(e).contains(b.accept),
            nodes_ab@.len() + nodes_ba@.len() <= max,
            hi_ab == nodes_ab@.len(),
            hi_ba == nodes_ba@.len(),
            side_ok(*a, *b, parts@, nodes_ab@, chains_ab@, lo_ab as int, hi_ab as int, level),
            side_ok(*b, *a, parts@, nodes_ba@, chains_ba@, lo_ba as int, hi_ba as int, level),
        decreases 2 * max - lo_ab - lo_ba,
    {
        let reading = clock.read_ms();
        if reading >= config.timeout_ms as u128 {
            return stopped(BackendStatus::Timeout, nodes_ab.len() + nodes_ba.len(), generated, &started);
        }
        let mut p: usize = 0;
        while p < parts.len()
            invariant
                prepared_ok(eng_a, *a, parts@),
                prepared_ok(eng_b, *b, parts@),
                a.wf(),
                b.wf(),
                classes_in(*a, all),
                classes_in(*b, all),
                parts_cover(all, parts@),
                e == Seq::<char>::empty(),
                a.run(e).contains(a.accept) == b.run(e).contains(b.accept),
                max == config.max_product_states,
                nodes_ab@.len() + nodes_ba@.len() <= max,
                hi_ab <= nodes_ab@.len(),
                hi_ba <= nodes_ba@.len(),
                p <= parts@.len(),
                side_ok(*a, *b, parts@, nodes_ab@, chains_ab@, lo_ab as int, hi_ab as int, level),
                side_ok(*b, *a, parts@, nodes_ba@, chains_ba@, lo_ba as int, hi_ba as int, level),
                forall|j: int, pp: int| lo_ab <= j < hi_ab && 0 <= pp < p ==> #[trigger] closed_on(*a, *b, parts@, nodes_ab@, j, pp),
                forall|j: int, pp: int| lo_ba <= j < hi_ba && 0 <= pp < p ==> #[trigger] closed_on(*b, *a, parts@, nodes_ba@, j, pp),
            decreases parts@.len() - p,
        {
            let reading = clock.read_ms();
            if reading >= config.timeout_ms as u128 {
                return stopped(BackendStatus::Timeout, nodes_ab.len() + nodes_ba.len(), generated, &started);
            }
            let mut id: usize = lo_ab;
            while id < hi_ab
                invariant
                    prepared_ok(eng_a, *a, parts@),
                    prepared_ok(eng_b, *b, parts@),
                    a.wf(),
                    b.wf(),
                    classes_in(*a, all),
                    classes_in(*b, all),
                    parts_cover(all, parts@),
                    e == Seq::<char>::empty(),
                    a.run(e).contains(a.accept) == b.run(e).contains(b.accept),
                    max == config.max_product_states,
                    nodes_ab@.len() + nodes_ba@.len() <= max,
                    lo_ab <= id <= hi_ab <= nodes_ab@.len(),
                    hi_ba <= nodes_ba@.len(),
                    p < parts@.len(),
                    side_ok(*a, *b, parts@, nodes_ab@, chains_ab@, lo_ab as int, hi_ab as int, level),
                    side_ok(*b, *a, parts@, nodes_ba@, chains_ba@, lo_ba as int, hi_ba as int, level),
                    forall|j: int, pp: int|
                        lo_ab <= j < hi_ab && 0 <= pp < p ==> #[trigger] closed_on(*a, *b, parts@, nodes_ab@, j, pp),
                    forall|j: int, pp: int|
                        lo_ba <= j < hi_ba && 0 <= pp < p ==> #[trigger] closed_on(*b, *a, parts@, nodes_ba@, j, pp),
                    forall|j: int| lo_ab <= j < id ==> #[trigger] closed_on(*a, *b, parts@, nodes_ab@, j, p as int),
                decreases hi_ab - id,
            {
                generated = generated.saturating_add(1);
                let ghost before = nodes_ab@;
                proof {
                    assert(path_word(before, id as int).len() == level);
                }
                let other = nodes_ba.len();
                let step = expand(a, b, &eng_a, &eng_b, &parts, &mut nodes_ab, &mut chains_ab, id, p, other, max);
                proof {
                    lemma_side_extend(
                        *a,
                        *b,
                        parts@,
                        before,
                        nodes_ab@,
                        lo_ab as int,
                        hi_ab as int,
                        level,
                        p as int,
                        id as int,
                    );
                }
                match step {
                    Expand::Done => {},
                    Expand::Found(witness) => {
                        proof {
                            lemma_side_below(*a, *b, all, parts@, nodes_ab@, chains_ab@, lo_ab as int, hi_ab as int, level);
                            lemma_side_below(*b, *a, all, parts@, nodes_ba@, chains_ba@, lo_ba as int, hi_ba as int, level);
                            assert forall|u: Seq<char>| u.len() < witness@.len() implies #[trigger] a.accepts(u) == b.accepts(u) by {
                                lemma_no_shorter(*a, *b, all, parts@, nodes_ab@, level, u);
                                lemma_no_shorter(*b, *a, all, parts@, nodes_ba@, level, u);
                            }
                        }
                        let visited = (nodes_ab.len() + nodes_ba.len()).saturating_add(1);
                        return found(witness, relation::LEFT_ONLY, visited, generated, &started);
                    },
                    Expand::Limit => {
                        return stopped(BackendStatus::StateLimit, nodes_ab.len() + nodes_ba.len(), generated, &started);
                    },
                }
                proof {
                    assert(closed_on(*a, *b, parts@, nodes_ab@, id as int, p as int));
                }
                id += 1;
            }
            let mut id: usize = lo_ba;
            while id < hi_ba
                invariant
                    prepared_ok(eng_a, *a, parts@),
                    prepared_ok(eng_b, *b, parts@),
                    a.wf(),
                    b.wf(),
                    classes_in(*a, all),
                    classes_in(*b, all),
                    parts_cover(all, parts@),
                    e == Seq::<char>::empty(),
                    a.run(e).contains(a.accept) == b.run(e).contains(b.accept),
                    max == config.max_product_states,
                    nodes_ab@.len() + nodes_ba@.len() <= max,
                    hi_ab <= nodes_ab@.len(),
                    lo_ba <= id <= hi_ba <= nodes_ba@.len(),
                    p < parts@.len(),
                    side_ok(*a, *b, parts@, nodes_ab@, chains_ab@, lo_ab as int, hi_ab as int, level),
                    side_ok(*b, *a, parts@, nodes_ba@, chains_ba@, lo_ba as int, hi_ba as int, level),
                    forall|j: int, pp: int|
                        lo_ab <= j < hi_ab && 0 <= pp < p + 1 ==> #[trigger] closed_on(*a, *b, parts@, nodes_ab@, j, pp),
                    forall|j: int, pp: int|
                        lo_ba <= j < hi_ba && 0 <= pp < p ==> #[trigger] closed_on(*b, *a, parts@, nodes_ba@, j, pp),
                    forall|j: int| lo_ba <= j < id ==> #[trigger] closed_on(*b, *a, parts@, nodes_ba@, j, p as int),
                decreases hi_ba - id,
            {
                generated = generated.saturating_add(1);
                let ghost before = nodes_ba@;
                proof {
                    assert(path_word(before, id as int).len() == level);
                }
                let other = nodes_ab.len();
                let step = expand(b, a, &eng_b, &eng_a, &parts, &mut nodes_ba, &mut chains_ba, id, p, other, max);
                proof {
                    lemma_side_extend(
                        *b,
                        *a,
                        parts@,
                        before,
                        nodes_ba@,
                        lo_ba as int,
                        hi_ba as int,
                        level,
                        p as int,
                        id as int,
                    );
                }
                match step {
                    Expand::Done => {},
                    Expand::Found(witness) => {
                        proof {
                            lemma_side_below(*a, *b, all, parts@, nodes_ab@, chains_ab@, lo_ab as int, hi_ab as int, level);
                            lemma_side_below(*b, *a, all, parts@, nodes_ba@, chains_ba@, lo_ba as int, hi_ba as int, level);
                            assert forall|u: Seq<char>| u.len() < witness@.len() implies #[trigger] a.accepts(u) == b.accepts(u) by {
                                lemma_no_shorter(*a, *b, all, parts@, nodes_ab@, level, u);
                                lemma_no_shorter(*b, *a, all, parts@, nodes_ba@, level, u);
                            }
                        }
                        let visited = (nodes_ab.len() + nodes_ba.len()).saturating_add(1);
                        return found(witness, relation::RIGHT_ONLY, visited, generated, &started);
                    },
                    Expand::Limit => {
                        return stopped(BackendStatus::StateLimit, nodes_ab.len() + nodes_ba.len(), generated, &started);
                    },
                }
                proof {
                    assert(closed_on(*b, *a, parts@, nodes_ba@, id as int, p as int));
                }
                id += 1;
            }
            p += 1;
        }
        proof {
            lemma_levels_next(nodes_ab@, lo_ab as int, hi_ab as int, level);
            lemma_levels_next(nodes_ba@, lo_ba as int, hi_ba as int, level);
            level = level + 1;
        }
        lo_ab = hi_ab;
        hi_ab = nodes_ab.len();
        lo_ba = hi_ba;
        hi_ba = nodes_ba.len();
    }
    proof {
        assert forall|w: Seq<char>| #[trigger] a.accepts(w) == b.accepts(w) by {
            assert(search_below(*a, *b, all, parts@, nodes_ab@, w.len() as int));
            assert(search_below(*b, *a, all, parts@, nodes_ba@, w.len() as int));
            lemma_no_shorter(*a, *b, all, parts@, nodes_ab@, w.len() as int, w);
            lemma_no_shorter(*b, *a, all, parts@, nodes_ba@, w.len() as int, w);
        }
    }
    stopped(BackendStatus::Exhausted, nodes_ab.len() + nodes_ba.len(), generated, &started)
}

/// A node of the overlap search: one state of each automaton.
type StateNode = SearchNode<(usize, usize)>;

/// Node `j`'s states are reached on its string.
spec fn pnode_ok(a: Nfa, b: Nfa, nodes: Seq<StateNode>, j: int) -> bool {
    &&& nodes[j].key.0 < a.states@.len()
    &&& nodes[j].key.1 < b.states@.len()
    &&& a.run(path_word(nodes, j)).contains(nodes[j].key.0)
    &&& b.run(path_word(nodes, j)).contains(nodes[j].key.1)
}

spec fn pnodes_ok(a: Nfa, b: Nfa, nodes: Seq<StateNode>) -> bool {
    forall|j: int| 0 <= j < nodes.len() ==> #[trigger] pnode_ok(a, b, nodes, j)
}

/// Some node holds the pair `(qa, qb)`.
spec fn has_pnode(nodes: Seq<StateNode>, qa: usize, qb: usize) -> bool {
    exists|j: int| 0 <= j < nodes.len() && (#[trigger] nodes[j]).key == (qa, qb)
}

/// Some node no deeper than `d` holds the pair `(qa, qb)`.
spec fn has_pnode_within(nodes: Seq<StateNode>, qa: usize, qb: usize, d: nat) -> bool {
    exists|j: int| 0 <= j < nodes.len() && (#[trigger] nodes[j]).key == (qa, qb) && path_word(nodes, j).len() <= d
}

/// The seen lists name exactly the pairs of the nodes.
spec fn seen_ok(seen: Seq<Vec<usize>>, nodes: Seq<StateNode>, na: int) -> bool {
    &&& seen.len() == na
    &&& forall|qa: usize, qb: usize| #[trigger] has_pnode(nodes, qa, qb) ==> qa < na
    &&& forall|qa: usize, qb: usize| qa < na ==> (#[trigger] seen[qa as int]@.contains(qb) <==> has_pnode(nodes, qa, qb))
}

/// Node `j` has been expanded on part `p`: no pair one step on is a pair of
/// accept states, and each has a node at most one deeper.
spec fn pclosed_on(a: Nfa, b: Nfa, parts: Seq<char>, nodes: Seq<StateNode>, j: int, p: int) -> bool {
    let c = parts[p];
    forall|qa2: usize, qb2: usize|
        #[trigger] a.step_set(set![nodes[j].key.0], c).contains(qa2) && #[trigger] b.step_set(set![nodes[j].key.1], c).contains(qb2)
            ==> !(qa2 == a.accept && qb2 == b.accept) && has_pnode_within(nodes, qa2, qb2, path_word(nodes, j).len() + 1)
}

proof fn lemma_pnodes_extend(a: Nfa, b: Nfa, parts: Seq<char>, short: Seq<StateNode>, long: Seq<StateNode>)
    requires
        short.len() <= long.len(),
        forall|j: int| 0 <= j < short.len() ==> #[trigger] long[j] == short[j],
    ensures
        forall|j: int| 0 <= j < short.len() && #[trigger] pnode_ok(a, b, short, j) ==> pnode_ok(a, b, long, j),
        forall|j: int, p: int|
            0 <= j < short.len() && 0 <= p < parts.len() && #[trigger] pclosed_on(a, b, parts, short, j, p) ==> pclosed_on(
                a,
                b,
                parts,
                long,
                j,
                p,
            ),
        forall|qa: usize, qb: usize| #[trigger] has_pnode(short, qa, qb) ==> has_pnode(long, qa, qb),
        forall|qa: usize, qb: usize, d: nat| #[trigger] has_pnode_within(short, qa, qb, d) ==> has_pnode_within(long, qa, qb, d),
{
    assert forall|qa: usize, qb: usize| #[trigger] has_pnode(short, qa, qb) implies has_pnode(long, qa, qb) by {
        let j = choose|j: int| 0 <= j < short.len() && (#[trigger] short[j]).key == (qa, qb);
        assert(long[j] == short[j]);
    }
    assert forall|qa: usize, qb: usize, d: nat| #[trigger] has_pnode_within(short, qa, qb, d) implies has_pnode_within(
        long,
        qa,
        qb,
        d,
    ) by {
        let j = choose|j: int| 0 <= j < short.len() && (#[trigger] short[j]).key == (qa, qb) && path_word(short, j).len() <= d;
        assert(long[j] == short[j]);
        lemma_path_prefix(short, long, j);
    }
    assert forall|j: int| 0 <= j < short.len() && #[trigger] pnode_ok(a, b, short, j) implies pnode_ok(a, b, long, j) by {
        lemma_path_prefix(short, long, j);
    }
    assert forall|j: int, p: int|
        0 <= j < short.len() && 0 <= p < parts.len() && #[trigger] pclosed_on(a, b, parts, short, j, p) implies pclosed_on(
        a,
        b,
        parts,
        long,
        j,
        p,
    ) by {
        assert(long[j] == short[j]);
        lemma_path_prefix(short, long, j);
    }
}

/// Record the pair; false when it was recorded already.
fn seen_insert(seen: &mut Vec<Vec<usize>>, qa: usize, qb: usize) -> (r: bool)
    requires
        qa < old(seen)@.len(),
    ensures
        final(seen)@.len() == old(seen)@.len(),
        r == !old(seen)@[qa as int]@.contains(qb),
        forall|q: int| 0 <= q < old(seen)@.len() && q != qa ==> #[trigger] final(seen)@[q] == old(seen)@[q],
        forall|v: usize| #[trigger] final(seen)@[qa as int]@.contains(v) <==> (old(seen)@[qa as int]@.contains(v) || v == qb),
{
    let ghost before = seen@[qa as int]@;
    let row = &seen[qa];
    let mut k: usize = 0;
    while k < row.len()
        invariant
            *row == seen@[qa as int],
            row@ == before,
            k <= row@.len(),
            forall|kk: int| 0 <= kk < k ==> #[trigger] row@[kk] != qb,
        decreases row@.len() - k,
    {
        if row[k] == qb {
            return false;
        }
        k += 1;
    }
    let mut updated: Vec<usize> = Vec::new();
    std::mem::swap(&mut updated, &mut seen[qa]);
    updated.push(qb);
    seen.set(qa, updated);
    proof {
        assert forall|v: usize| #[trigger] seen@[qa as int]@.contains(v) <==> (before.contains(v) || v == qb) by {
            assert(seen@[qa as int]@ == before.push(qb));
            if before.contains(v) {
                let i = choose|i: int| 0 <= i < before.len() && before[i] == v;
                assert(seen@[qa as int]@[i] == v);
            }
            if seen@[qa as int]@.contains(v) && v != qb {
                let i = choose|i: int| 0 <= i < seen@[qa as int]@.len() && seen@[qa as int]@[i] == v;
                assert(before[i] == v);
            }
            if v == qb {
                assert(seen@[qa as int]@[before.len() as int] == v);
            }
        }
    }
    true
}

/// The pair settles nothing and has a node no deeper than `d`.
spec fn pair_done(a: Nfa, b: Nfa, nodes: Seq<StateNode>, qa: usize, qb: usize, d: nat) -> bool {
    !(qa == a.accept && qb == b.accept) && has_pnode_within(nodes, qa, qb, d)
}

/// Expand node `id` of the overlap search on part `p`: report a string
/// both automata accept, or add a node for each new pair of states one
/// step on.
fn expand_pair(
    a: &Nfa,
    b: &Nfa,
    ea: &Prepared,
    eb: &Prepared,
    parts: &Vec<char>,
    nodes: &mut Vec<StateNode>,
    seen: &mut Vec<Vec<usize>>,
    id: usize,
    p: usize,
    max: usize,
) -> (r: Expand)
    requires
        prepared_ok(*ea, *a, parts@),
        prepared_ok(*eb, *b, parts@),
        id < old(nodes)@.len(),
        p < parts@.len(),
        parents_ok(old(nodes)@),
        pnodes_ok(*a, *b, old(nodes)@),
        seen_ok(old(seen)@, old(nodes)@, a.states@.len() as int),
        old(nodes)@.len() <= max,
        forall|j: int|
            0 <= j < old(nodes)@.len() ==> #[trigger] path_word(old(nodes)@, j).len() <= path_word(old(nodes)@, id as int).len()
                + 1,
    ensures
        old(nodes)@.len() <= final(nodes)@.len(),
        forall|j: int| 0 <= j < old(nodes)@.len() ==> #[trigger] final(nodes)@[j] == old(nodes)@[j],
        parents_ok(final(nodes)@),
        pnodes_ok(*a, *b, final(nodes)@),
        final(nodes)@.len() <= max,
        forall|j: int|
            old(nodes)@.len() <= j < final(nodes)@.len() ==> #[trigger] path_word(final(nodes)@, j).len() == path_word(
                old(nodes)@,
                id as int,
            ).len() + 1,
        !(r is Limit) ==> seen_ok(final(seen)@, final(nodes)@, a.states@.len() as int),
        r is Done ==> pclosed_on(*a, *b, parts@, final(nodes)@, id as int, p as int),
        r matches Expand::Found(w) ==> a.accepts(w@) && b.accepts(w@) && w@.len() == path_word(old(nodes)@, id as int).len() + 1,
        r is Limit ==> final(nodes)@.len() >= max,
{
    let ghost n0 = nodes@;
    let ghost c = parts@[p as int];
    let ghost w = path_word(nodes@, id as int);
    let ghost na = a.states@.len() as int;
    let ch = parts[p];
    let (qa, qb) = nodes[id].key;
    proof {
        assert(pnode_ok(*a, *b, nodes@, id as int));
    }
    let a_bits = &ea.delta[qa][p];
    let b_bits = &eb.delta[qb][p];
    proof {
        assert(bits_are(*a_bits, a.step_set(set![qa], c), na));
        assert(bits_are(*b_bits, b.step_set(set![qb], c), b.states@.len() as int));
    }
    if a_bits.is_empty() {
        proof {
            assert forall|qa2: usize| #[trigger] a.step_set(set![qa], c).contains(qa2) implies false by {
                lemma_step_in_range(*a, set![qa], c, qa2);
                assert(a_bits.has(qa2 as int));
            }
        }
        return Expand::Done;
    }
    if b_bits.is_empty() {
        proof {
            assert forall|qb2: usize| #[trigger] b.step_set(set![qb], c).contains(qb2) implies false by {
                lemma_step_in_range(*b, set![qb], c, qb2);
                assert(b_bits.has(qb2 as int));
            }
        }
        return Expand::Done;
    }
    proof {
        lemma_run_push(*a, w, c);
        lemma_run_push(*b, w, c);
        assert(set![qa].subset_of(a.run(w)));
        assert(set![qb].subset_of(b.run(w)));
        lemma_step_mono(*a, set![qa], a.run(w), c);
        lemma_step_mono(*b, set![qb], b.run(w), c);
    }
    let ta = a_bits.iter();
    let tb = b_bits.iter();
    let mut i: usize = 0;
    while i < ta.len()
        invariant
            prepared_ok(*ea, *a, parts@),
            prepared_ok(*eb, *b, parts@),
            p < parts@.len(),
            c == parts@[p as int],
            ch == c,
            id < n0.len(),
            (qa, qb) == n0[id as int].key,
            w == path_word(n0, id as int),
            na == a.states@.len(),
            a.step_set(set![qa], c).subset_of(a.run(w.push(c))),
            b.step_set(set![qb], c).subset_of(b.run(w.push(c))),
            forall|v: usize| #[trigger] ta@.contains(v) <==> a_bits.has(v as int),
            forall|v: usize| #[trigger] tb@.contains(v) <==> b_bits.has(v as int),
            bits_are(*a_bits, a.step_set(set![qa], c), na),
            bits_are(*b_bits, b.step_set(set![qb], c), b.states@.len() as int),
            i <= ta@.len(),
            n0 == old(nodes)@,
            n0.len() <= nodes@.len(),
            forall|j: int| 0 <= j < n0.len() ==> #[trigger] nodes@[j] == n0[j],
            parents_ok(nodes@),
            pnodes_ok(*a, *b, nodes@),
            seen_ok(seen@, nodes@, na),
            nodes@.len() <= max,
            forall|j: int| 0 <= j < nodes@.len() ==> #[trigger] path_word(nodes@, j).len() <= w.len() + 1,
            forall|j: int| n0.len() <= j < nodes@.len() ==> #[trigger] path_word(nodes@, j).len() == w.len() + 1,
            forall|ii: int, kk: int|
                0 <= ii < i && 0 <= kk < tb@.len() ==> pair_done(
                    *a,
                    *b,
                    nodes@,
                    #[trigger] ta@[ii],
                    #[trigger] tb@[kk],
                    w.len() + 1,
                ),
        decreases ta@.len() - i,
    {
        let qa2 = ta[i];
        let mut k: usize = 0;
        while k < tb.len()
            invariant
                prepared_ok(*ea, *a, parts@),
                prepared_ok(*eb, *b, parts@),
                p < parts@.len(),
                c == parts@[p as int],
                ch == c,
                id < n0.len(),
                (qa, qb) == n0[id as int].key,
                w == path_word(n0, id as int),
                na == a.states@.len(),
                a.step_set(set![qa], c).subset_of(a.run(w.push(c))),
                b.step_set(set![qb], c).subset_of(b.run(w.push(c))),
                forall|v: usize| #[trigger] ta@.contains(v) <==> a_bits.has(v as int),
                forall|v: usize| #[trigger] tb@.contains(v) <==> b_bits.has(v as int),
                bits_are(*a_bits, a.step_set(set![qa], c), na),
                bits_are(*b_bits, b.step_set(set![qb], c), b.states@.len() as int),
                i < ta@.len(),
                qa2 == ta@[i as int],
                k <= tb@.len(),
                n0 == old(nodes)@,
                n0.len() <= nodes@.len(),
                forall|j: int| 0 <= j < n0.len() ==> #[trigger] nodes@[j] == n0[j],
                parents_ok(nodes@),
                pnodes_ok(*a, *b, nodes@),
                seen_ok(seen@, nodes@, na),
                nodes@.len() <= max,
                forall|j: int| 0 <= j < nodes@.len() ==> #[trigger] path_word(nodes@, j).len() <= w.len() + 1,
                forall|j: int| n0.len() <= j < nodes@.len() ==> #[trigger] path_word(nodes@, j).len() == w.len() + 1,
                forall|ii: int, kk: int|
                    0 <= ii < i && 0 <= kk < tb@.len() ==> pair_done(
                        *a,
                        *b,
                        nodes@,
                        #[trigger] ta@[ii],
                        #[trigger] tb@[kk],
                        w.len() + 1,
                    ),
                forall|kk: int| 0 <= kk < k ==> pair_done(*a, *b, nodes@, qa2, #[trigger] tb@[kk], w.len() + 1),
            decreases tb@.len() - k,
        {
            let qb2 = tb[k];
            proof {
                assert(ta@.contains(qa2));
                assert(tb@.contains(qb2));
                assert(a.step_set(set![qa], c).contains(qa2));
                assert(b.step_set(set![qb], c).contains(qb2));
                lemma_step_in_range(*a, set![qa], c, qa2);
                lemma_step_in_range(*b, set![qb], c, qb2);
            }
            if qa2 == ea.accept && qb2 == eb.accept {
                let mut witness = reconstruct(nodes, id);
                proof {
                    lemma_path_prefix(n0, nodes@, id as int);
                }
                witness.append(char_text(ch).as_str());
                proof {
                    assert(witness@ == w.push(c));
                }
                return Expand::Found(witness);
            }
            let ghost before = nodes@;
            let ghost seen0 = seen@;
            if !seen_insert(seen, qa2, qb2) {
                proof {
                    assert(has_pnode(nodes@, qa2, qb2));
                    let j = choose|j: int| 0 <= j < nodes@.len() && (#[trigger] nodes@[j]).key == (qa2, qb2);
                    assert(path_word(nodes@, j).len() <= w.len() + 1);
                    assert(has_pnode_within(nodes@, qa2, qb2, w.len() + 1));
                }
            } else {
                if nodes.len() >= max {
                    return Expand::Limit;
                }
                let node = SearchNode { key: (qa2, qb2), parent: Some((id, ch)) };
                nodes.push(node);
                proof {
                    let m = before.len() as int;
                    assert(nodes@ == before.push(node));
                    assert forall|j: int| 0 <= j < before.len() implies #[trigger] nodes@[j] == before[j] by {}
                    lemma_pnodes_extend(*a, *b, parts@, before, nodes@);
                    lemma_path_prefix(before, nodes@, id as int);
                    lemma_path_prefix(n0, before, id as int);
                    assert(path_word(nodes@, m) == w.push(c));
                    assert(pnode_ok(*a, *b, nodes@, m));
                    assert forall|j: int| 0 <= j < nodes@.len() implies #[trigger] pnode_ok(*a, *b, nodes@, j) by {
                        if j < m {
                            assert(pnode_ok(*a, *b, before, j));
                        }
                    }
                    assert(nodes@[m].key == (qa2, qb2));
                    assert(has_pnode(nodes@, qa2, qb2));
                    assert(has_pnode_within(nodes@, qa2, qb2, w.len() + 1));
                    assert forall|j: int| 0 <= j < nodes@.len() implies #[trigger] path_word(nodes@, j).len() <= w.len() + 1 by {
                        if j < m {
                            lemma_path_prefix(before, nodes@, j);
                        }
                    }
                    assert forall|j: int| n0.len() <= j < nodes@.len() implies #[trigger] path_word(nodes@, j).len() == w.len()
                        + 1 by {
                        if j < m {
                            lemma_path_prefix(before, nodes@, j);
                        }
                    }
                    assert forall|x: usize, y: usize| #[trigger] has_pnode(nodes@, x, y) implies x < na by {
                        let j = choose|j: int| 0 <= j < nodes@.len() && (#[trigger] nodes@[j]).key == (x, y);
                        if j < m {
                            assert(has_pnode(before, x, y));
                        }
                    }
                    assert forall|x: usize, y: usize| x < na implies (#[trigger] seen@[x as int]@.contains(y) <==> has_pnode(
                        nodes@,
                        x,
                        y,
                    )) by {
                        if has_pnode(nodes@, x, y) && !(x == qa2 && y == qb2) {
                            let j = choose|j: int| 0 <= j < nodes@.len() && (#[trigger] nodes@[j]).key == (x, y);
                            assert(j < m);
                            assert(has_pnode(before, x, y));
                        }
                        if x != qa2 {
                            assert(seen@[x as int] == seen0[x as int]);
                        }
                    }
                }
            }
            proof {
                lemma_pnodes_extend(*a, *b, parts@, before, nodes@);
                assert(pair_done(*a, *b, nodes@, qa2, qb2, w.len() + 1));
                assert forall|ii: int, kk: int|
                    0 <= ii < i && 0 <= kk < tb@.len() implies pair_done(
                    *a,
                    *b,
                    nodes@,
                    #[trigger] ta@[ii],
                    #[trigger] tb@[kk],
                    w.len() + 1,
                ) by {
                    assert(pair_done(*a, *b, before, ta@[ii], tb@[kk], w.len() + 1));
                }
                assert forall|kk: int| 0 <= kk < k + 1 implies pair_done(*a, *b, nodes@, qa2, #[trigger] tb@[kk], w.len() + 1) by {
                    if kk < k {
                        assert(pair_done(*a, *b, before, qa2, tb@[kk], w.len() + 1));
                    }
                }
            }
            k += 1;
        }
        i += 1;
    }
    proof {
        assert forall|qa2: usize, qb2: usize|
            #[trigger] a.step_set(set![qa], c).contains(qa2) && #[trigger] b.step_set(set![qb], c).contains(qb2) implies !(qa2
            == a.accept && qb2 == b.accept) && has_pnode_within(nodes@, qa2, qb2, w.len() + 1) by {
            lemma_step_in_range(*a, set![qa], c, qa2);
            lemma_step_in_range(*b, set![qb], c, qb2);
            assert(a_bits.has(qa2 as int));
            assert(b_bits.has(qb2 as int));
            assert(ta@.contains(qa2));
            assert(tb@.contains(qb2));
            let ii = choose|ii: int| 0 <= ii < ta@.len() && ta@[ii] == qa2;
            let kk = choose|kk: int| 0 <= kk < tb@.len() && tb@[kk] == qb2;
            assert(pair_done(*a, *b, nodes@, ta@[ii], tb@[kk], w.len() + 1));
        }
        lemma_path_prefix(n0, nodes@, id as int);
        assert(nodes@[id as int] == n0[id as int]);
    }
    Expand::Done
}

/// What holds once every node of the overlap search shallower than `k` is
/// expanded on every part.
spec fn pair_search_below(a: Nfa, b: Nfa, all: Seq<CharSet>, parts: Seq<char>, nodes: Seq<StateNode>, k: int) -> bool {
    &&& a.wf()
    &&& b.wf()
    &&& classes_in(a, all)
    &&& classes_in(b, all)
    &&& parts_cover(all, parts)
    &&& pnodes_ok(a, b, nodes)
    &&& forall|qa: usize, qb: usize|
        #[trigger] a.run(Seq::empty()).contains(qa) && #[trigger] b.run(Seq::empty()).contains(qb) ==> has_pnode_within(
            nodes,
            qa,
            qb,
            0,
        )
    &&& forall|j: int, p: int|
        0 <= j < nodes.len() && 0 <= p < parts.len() && path_word(nodes, j).len() < k ==> #[trigger] pclosed_on(
            a,
            b,
            parts,
            nodes,
            j,
            p,
        )
}

/// Once every node shallower than `k` is expanded, every pair of states the
/// two automata reach on one string of at most `k` characters has a node no
/// deeper than the string.
proof fn lemma_pair_reach(
    a: Nfa,
    b: Nfa,
    all: Seq<CharSet>,
    parts: Seq<char>,
    nodes: Seq<StateNode>,
    k: int,
    w: Seq<char>,
)
    requires
        pair_search_below(a, b, all, parts, nodes, k),
        w.len() <= k,
    ensures
        forall|qa: usize, qb: usize| #[trigger] a.run(w).contains(qa) && #[trigger] b.run(w).contains(qb) ==> has_pnode_within(
            nodes,
            qa,
            qb,
            w.len(),
        ),
    decreases w.len(),
{
    if w.len() > 0 {
        let u = w.drop_last();
        let c = w.last();
        lemma_pair_reach(a, b, all, parts, nodes, k, u);
        assert(u.push(c) =~= w);
        lemma_run_push(a, u, c);
        lemma_run_push(b, u, c);
        assert forall|qa2: usize, qb2: usize| #[trigger] a.run(w).contains(qa2) && #[trigger] b.run(w).contains(qb2) implies has_pnode_within(
            nodes,
            qa2,
            qb2,
            w.len(),
        ) by {
            lemma_step_split(a, a.run(u), c, qa2);
            lemma_step_split(b, b.run(u), c, qb2);
            let qa = choose|q: usize| a.run(u).contains(q) && #[trigger] a.step_set(set![q], c).contains(qa2);
            let qb = choose|q: usize| b.run(u).contains(q) && #[trigger] b.step_set(set![q], c).contains(qb2);
            if !any_has(all, c as int) {
                lemma_step_none(a, all, c);
                assert(a.step_set(set![qa], c) == Set::<usize>::empty());
            } else {
                let i = lemma_part_for(a, b, all, parts, c);
                let d = parts[i];
                assert(has_pnode_within(nodes, qa, qb, u.len()));
                let j = choose|j: int|
                    0 <= j < nodes.len() && (#[trigger] nodes[j]).key == (qa, qb) && path_word(nodes, j).len() <= u.len();
                assert(pclosed_on(a, b, parts, nodes, j, i));
                assert(a.step_set(set![qa], c) == a.step_set(set![qa], d));
                assert(b.step_set(set![qb], c) == b.step_set(set![qb], d));
                assert(a.step_set(set![nodes[j].key.0], d).contains(qa2));
                assert(b.step_set(set![nodes[j].key.1], d).contains(qb2));
                let j2 = choose|j2: int|
                    0 <= j2 < nodes.len() && (#[trigger] nodes[j2]).key == (qa2, qb2) && path_word(nodes, j2).len()
                        <= path_word(nodes, j).len() + 1;
                assert(path_word(nodes, j2).len() <= w.len());
            }
        }
    } else {
        assert(w =~= Seq::<char>::empty());
    }
}

/// Once every node shallower than `k` is expanded, and the empty string is
/// in at most one language, no string of at most `k` characters is in both.
proof fn lemma_pair_sound(
    a: Nfa,
    b: Nfa,
    all: Seq<CharSet>,
    parts: Seq<char>,
    nodes: Seq<StateNode>,
    k: int,
    w: Seq<char>,
)
    requires
        pair_search_below(a, b, all, parts, nodes, k),
        !(a.run(Seq::empty()).contains(a.accept) && b.run(Seq::empty()).contains(b.accept)),
        w.len() <= k,
    ensures
        !(a.accepts(w) && b.accepts(w)),
{
    if w.len() > 0 && a.accepts(w) && b.accepts(w) {
        let u = w.drop_last();
        let c = w.last();
        lemma_pair_reach(a, b, all, parts, nodes, k, u);
        assert(u.push(c) =~= w);
        lemma_run_push(a, u, c);
        lemma_run_push(b, u, c);
        lemma_step_split(a, a.run(u), c, a.accept);
        lemma_step_split(b, b.run(u), c, b.accept);
        let qa = choose|q: usize| a.run(u).contains(q) && #[trigger] a.step_set(set![q], c).contains(a.accept);
        let qb = choose|q: usize| b.run(u).contains(q) && #[trigger] b.step_set(set![q], c).contains(b.accept);
        if !any_has(all, c as int) {
            lemma_step_none(a, all, c);
            assert(a.step_set(set![qa], c) == Set::<usize>::empty());
        } else {
            let i = lemma_part_for(a, b, all, parts, c);
            let d = parts[i];
            assert(has_pnode_within(nodes, qa, qb, u.len()));
            let j = choose|j: int|
                0 <= j < nodes.len() && (#[trigger] nodes[j]).key == (qa, qb) && path_word(nodes, j).len() <= u.len();
            assert(pclosed_on(a, b, parts, nodes, j, i));
            assert(a.step_set(set![qa], c) == a.step_set(set![qa], d));
            assert(b.step_set(set![qb], c) == b.step_set(set![qb], d));
            assert(a.step_set(set![nodes[j].key.0], d).contains(a.accept));
            assert(b.step_set(set![nodes[j].key.1], d).contains(b.accept));
        }
    } else if w.len() == 0 {
        assert(w =~= Seq::<char>::empty());
    }
}

/// Is some string in both languages? A string found is a shortest one;
/// running out of pairs proves that none is.
fn check_overlap<K: Clock>(a: &Nfa, b: &Nfa, config: &Config, clock: &K) -> (r: BackendResult)
    requires
        a.wf(),
        b.wf(),
        a.scalar_edges(),
        b.scalar_edges(),
    ensures
        (r.status == BackendStatus::Found) == (r.witness is Some),
        (r.status == BackendStatus::Found) == (r.relation is Some),
        r.status == BackendStatus::Found ==> (r.witness matches Some(w) && r.relation matches Some(rel) && a.accepts(w@)
            && b.accepts(w@) && rel@ == relation::IN_BOTH@),
        r.status == BackendStatus::Found ==> (r.witness matches Some(w) && forall|u: Seq<char>|
            u.len() < w@.len() ==> !(#[trigger] a.accepts(u) && b.accepts(u))),
        a.accepts(Seq::empty()) && b.accepts(Seq::empty()) ==> (r.status == BackendStatus::Found && (r.witness matches Some(
            w,
        ) && w@ == Seq::<char>::empty())),
        r.status == BackendStatus::Exhausted ==> forall|w: Seq<char>| !(#[trigger] a.accepts(w) && b.accepts(w)),
        r.status == BackendStatus::StateLimit ==> r.visited_states >= config.max_product_states,
        r.status != BackendStatus::Found ==> r.visited_states <= config.max_product_states,
        r.visited_states <= config.max_product_states + 1,
        r.status != BackendStatus::Found ==> r.witness_extraction_ms == 0,
        r.status == BackendStatus::Timeout ==> exists|t: u128| #[trigger] clock.may_read(t) && t >= config.timeout_ms as u128,
{
    let started = instant_now();
    let (parts, Ghost(all)) = global_parts(a, b);
    let eng_a = Prepared::new(a, &parts);
    let eng_b = Prepared::new(b, &parts);
    let ghost e = Seq::<char>::empty();
    let ghost na = a.states@.len() as int;
    let max = config.max_product_states;
    if accepts_empty(&eng_a, Ghost(*a), Ghost(parts@)) && accepts_empty(&eng_b, Ghost(*b), Ghost(parts@)) {
        return found(String::new(), relation::IN_BOTH, 1, 0, &started);
    }
    let mut nodes: Vec<StateNode> = Vec::new();
    let mut seen: Vec<Vec<usize>> = Vec::new();
    let mut z: usize = 0;
    while z < eng_a.n_states
        invariant
            z <= eng_a.n_states,
            seen@.len() == z,
            forall|q: int| 0 <= q < z ==> (#[trigger] seen@[q])@.len() == 0,
        decreases eng_a.n_states - z,
    {
        seen.push(Vec::new());
        z += 1;
    }
    proof {
        assert forall|x: usize, y: usize| x < na implies (#[trigger] seen@[x as int]@.contains(y) <==> has_pnode(nodes@, x, y)) by {}
    }
    let mut i: usize = 0;
    while i < eng_a.start_ids.len()
        invariant
            prepared_ok(eng_a, *a, parts@),
            prepared_ok(eng_b, *b, parts@),
            e == Seq::<char>::empty(),
            !(a.accepts(e) && b.accepts(e)),
            na == a.states@.len(),
            max == config.max_product_states,
            i <= eng_a.start_ids@.len(),
            nodes@.len() <= max,
            parents_ok(nodes@),
            pnodes_ok(*a, *b, nodes@),
            forall|j: int| 0 <= j < nodes@.len() ==> (#[trigger] nodes@[j]).parent is None,
            seen_ok(seen@, nodes@, na),
            forall|ii: int, kk: int|
                0 <= ii < i && 0 <= kk < eng_b.start_ids@.len() ==> has_pnode(
                    nodes@,
                    #[trigger] eng_a.start_ids@[ii],
                    #[trigger] eng_b.start_ids@[kk],
                ),
        decreases eng_a.start_ids@.len() - i,
    {
        let qa = eng_a.start_ids[i];
        let mut k: usize = 0;
        while k < eng_b.start_ids.len()
            invariant
                prepared_ok(eng_a, *a, parts@),
                prepared_ok(eng_b, *b, parts@),
                e == Seq::<char>::empty(),
                !(a.accepts(e) && b.accepts(e)),
                na == a.states@.len(),
                max == config.max_product_states,
                i < eng_a.start_ids@.len(),
                qa == eng_a.start_ids@[i as int],
                k <= eng_b.start_ids@.len(),
                nodes@.len() <= max,
                parents_ok(nodes@),
                pnodes_ok(*a, *b, nodes@),
                forall|j: int| 0 <= j < nodes@.len() ==> (#[trigger] nodes@[j]).parent is None,
                seen_ok(seen@, nodes@, na),
                forall|ii: int, kk: int|
                    0 <= ii < i && 0 <= kk < eng_b.start_ids@.len() ==> has_pnode(
                        nodes@,
                        #[trigger] eng_a.start_ids@[ii],
                        #[trigger] eng_b.start_ids@[kk],
                    ),
                forall|kk: int| 0 <= kk < k ==> has_pnode(nodes@, qa, #[trigger] eng_b.start_ids@[kk]),
            decreases eng_b.start_ids@.len() - k,
        {
            let qb = eng_b.start_ids[k];
            let ghost before = nodes@;
            let ghost seen0 = seen@;
            if seen_insert(&mut seen, qa, qb) {
                if nodes.len() >= max {
                    return stopped(BackendStatus::StateLimit, nodes.len(), 0, &started);
                }
                let node = SearchNode { key: (qa, qb), parent: None };
                nodes.push(node);
                proof {
                    let m = before.len() as int;
                    assert(nodes@ == before.push(node));
                    assert forall|j: int| 0 <= j < before.len() implies #[trigger] nodes@[j] == before[j] by {}
                    lemma_pnodes_extend(*a, *b, parts@, before, nodes@);
                    assert(path_word(nodes@, m) =~= e);
                    assert(eng_a.start_ids@.to_set().contains(qa));
                    assert(eng_b.start_ids@.to_set().contains(qb));
                    assert(pnode_ok(*a, *b, nodes@, m));
                    assert forall|j: int| 0 <= j < nodes@.len() implies #[trigger] pnode_ok(*a, *b, nodes@, j) by {
                        if j < m {
                            assert(pnode_ok(*a, *b, before, j));
                        }
                    }
                    assert(nodes@[m].key == (qa, qb));
                    assert(has_pnode(nodes@, qa, qb));
                    assert forall|x: usize, y: usize| #[trigger] has_pnode(nodes@, x, y) implies x < na by {
                        let j = choose|j: int| 0 <= j < nodes@.len() && (#[trigger] nodes@[j]).key == (x, y);
                        if j < m {
                            assert(has_pnode(before, x, y));
                        }
                    }
                    assert forall|x: usize, y: usize| x < na implies (#[trigger] seen@[x as int]@.contains(y) <==> has_pnode(
                        nodes@,
                        x,
                        y,
                    )) by {
                        if has_pnode(nodes@, x, y) && !(x == qa && y == qb) {
                            let j = choose|j: int| 0 <= j < nodes@.len() && (#[trigger] nodes@[j]).key == (x, y);
                            assert(j < m);
                            assert(has_pnode(before, x, y));
                        }
                        if x != qa {
                            assert(seen@[x as int] == seen0[x as int]);
                        }
                    }
                }
            }
            proof {
                lemma_pnodes_extend(*a, *b, parts@, before, nodes@);
                assert(has_pnode(nodes@, qa, qb));
                assert forall|ii: int, kk: int|
                    0 <= ii < i && 0 <= kk < eng_b.start_ids@.len() implies has_pnode(
                    nodes@,
                    #[trigger] eng_a.start_ids@[ii],
                    #[trigger] eng_b.start_ids@[kk],
                ) by {
                    assert(has_pnode(before, eng_a.start_ids@[ii], eng_b.start_ids@[kk]));
                }
                assert forall|kk: int| 0 <= kk < k + 1 implies has_pnode(nodes@, qa, #[trigger] eng_b.start_ids@[kk]) by {
                    if kk < k {
                        assert(has_pnode(before, qa, eng_b.start_ids@[kk]));
                    }
                }
            }
            k += 1;
        }
        i += 1;
    }
    proof {
        assert forall|j: int| 0 <= j < nodes@.len() implies #[trigger] path_word(nodes@, j).len() == 0 by {
            assert(nodes@[j].parent is None);
        }
        assert forall|qa: usize, qb: usize|
            #[trigger] a.run(e).contains(qa) && #[trigger] b.run(e).contains(qb) implies has_pnode_within(nodes@, qa, qb, 0) by {
            assert(eng_a.start_ids@.to_set().contains(qa));
            assert(eng_b.start_ids@.to_set().contains(qb));
            let ii = choose|ii: int| 0 <= ii < eng_a.start_ids@.len() && eng_a.start_ids@[ii] == qa;
            let kk = choose|kk: int| 0 <= kk < eng_b.start_ids@.len() && eng_b.start_ids@[kk] == qb;
            assert(has_pnode(nodes@, eng_a.start_ids@[ii], eng_b.start_ids@[kk]));
            let j = choose|j: int| 0 <= j < nodes@.len() && (#[trigger] nodes@[j]).key == (qa, qb);
            assert(path_word(nodes@, j).len() == 0);
        }
    }
    let mut generated: usize = 0;
    let mut lo: usize = 0;
    let mut hi: usize = nodes.len();
    let ghost mut level: int = 0;
    while lo < hi
        invariant
            prepared_ok(eng_a, *a, parts@),
            prepared_ok(eng_b, *b, parts@),
            a.wf(),
            b.wf(),
            classes_in(*a, all),
            classes_in(*b, all),
            parts_cover(all, parts@),
            e == Seq::<char>::empty(),
            na == a.states@.len(),
            max == config.max_product_states,
            !(a.run(e).contains(a.accept) && b.run(e).contains(b.accept)),
            lo <= hi <= nodes@.len() <= max,
            hi == nodes@.len(),
            parents_ok(nodes@),
            pnodes_ok(*a, *b, nodes@),
            seen_ok(seen@, nodes@, na),
            forall|qa: usize, qb: usize|
                #[trigger] a.run(e).contains(qa) && #[trigger] b.run(e).contains(qb) ==> has_pnode_within(nodes@, qa, qb, 0),
            forall|j: int, p: int| 0 <= j < lo && 0 <= p < parts@.len() ==> #[trigger] pclosed_on(*a, *b, parts@, nodes@, j, p),
            levels_ok(nodes@, lo as int, hi as int, level),
        decreases max - lo,
    {
        let reading = clock.read_ms();
        if reading >= config.timeout_ms as u128 {
            return stopped(BackendStatus::Timeout, nodes.len(), generated, &started);
        }
        let mut p: usize = 0;
        while p < parts.len()
            invariant
                prepared_ok(eng_a, *a, parts@),
                prepared_ok(eng_b, *b, parts@),
                a.wf(),
                b.wf(),
                classes_in(*a, all),
                classes_in(*b, all),
                parts_cover(all, parts@),
                e == Seq::<char>::empty(),
                !(a.run(e).contains(a.accept) && b.run(e).contains(b.accept)),
                na == a.states@.len(),
                max == config.max_product_states,
                lo < hi <= nodes@.len() <= max,
                p <= parts@.len(),
                parents_ok(nodes@),
                pnodes_ok(*a, *b, nodes@),
                seen_ok(seen@, nodes@, na),
                forall|qa: usize, qb: usize|
                    #[trigger] a.run(e).contains(qa) && #[trigger] b.run(e).contains(qb) ==> has_pnode_within(nodes@, qa, qb, 0),
                forall|j: int, pp: int|
                    0 <= j < lo && 0 <= pp < parts@.len() ==> #[trigger] pclosed_on(*a, *b, parts@, nodes@, j, pp),
                forall|j: int, pp: int| lo <= j < hi && 0 <= pp < p ==> #[trigger] pclosed_on(*a, *b, parts@, nodes@, j, pp),
                levels_ok(nodes@, lo as int, hi as int, level),
            decreases parts@.len() - p,
        {
            let reading = clock.read_ms();
            if reading >= config.timeout_ms as u128 {
                return stopped(BackendStatus::Timeout, nodes.len(), generated, &started);
            }
            let mut id: usize = lo;
            while id < hi
                invariant
                    prepared_ok(eng_a, *a, parts@),
                    prepared_ok(eng_b, *b, parts@),
                    a.wf(),
                    b.wf(),
                    classes_in(*a, all),
                    classes_in(*b, all),
                    parts_cover(all, parts@),
                    e == Seq::<char>::empty(),
                    !(a.run(e).contains(a.accept) && b.run(e).contains(b.accept)),
                    na == a.states@.len(),
                    max == config.max_product_states,
                    lo <= id <= hi <= nodes@.len() <= max,
                    p < parts@.len(),
                    parents_ok(nodes@),
                    pnodes_ok(*a, *b, nodes@),
                    seen_ok(seen@, nodes@, na),
                    forall|qa: usize, qb: usize|
                        #[trigger] a.run(e).contains(qa) && #[trigger] b.run(e).contains(qb) ==> has_pnode_within(nodes@, qa, qb, 0),
                    forall|j: int, pp: int|
                        0 <= j < lo && 0 <= pp < parts@.len() ==> #[trigger] pclosed_on(*a, *b, parts@, nodes@, j, pp),
                    forall|j: int, pp: int| lo <= j < hi && 0 <= pp < p ==> #[trigger] pclosed_on(*a, *b, parts@, nodes@, j, pp),
                    forall|j: int| lo <= j < id ==> #[trigger] pclosed_on(*a, *b, parts@, nodes@, j, p as int),
                    levels_ok(nodes@, lo as int, hi as int, level),
                decreases hi - id,
            {
                generated = generated.saturating_add(1);
                let ghost before = nodes@;
                proof {
                    assert(path_word(before, id as int).len() == level);
                }
                let step = expand_pair(a, b, &eng_a, &eng_b, &parts, &mut nodes, &mut seen, id, p, max);
                proof {
                    lemma_pnodes_extend(*a, *b, parts@, before, nodes@);
                    lemma_levels_extend(before, nodes@, lo as int, hi as int, level);
                    assert forall|qa: usize, qb: usize|
                        #[trigger] a.run(e).contains(qa) && #[trigger] b.run(e).contains(qb) implies has_pnode_within(
                        nodes@,
                        qa,
                        qb,
                        0,
                    ) by {
                        assert(has_pnode_within(before, qa, qb, 0));
                    }
                    assert forall|j: int, pp: int|
                        0 <= j < lo && 0 <= pp < parts@.len() implies #[trigger] pclosed_on(*a, *b, parts@, nodes@, j, pp) by {
                        assert(pclosed_on(*a, *b, parts@, before, j, pp));
                    }
                }
                match step {
                    Expand::Done => {},
                    Expand::Found(witness) => {
                        proof {
                            assert(pair_search_below(*a, *b, all, parts@, nodes@, level));
                            assert forall|u: Seq<char>| u.len() < witness@.len() implies !(#[trigger] a.accepts(u) && b.accepts(u)) by {
                                lemma_pair_sound(*a, *b, all, parts@, nodes@, level, u);
                            }
                        }
                        return found(witness, relation::IN_BOTH, nodes.len().saturating_add(1), generated, &started);
                    },
                    Expand::Limit => {
                        return stopped(BackendStatus::StateLimit, nodes.len(), generated, &started);
                    },
                }
                proof {
                    assert forall|j: int, pp: int| lo <= j < hi && 0 <= pp < p implies #[trigger] pclosed_on(
                        *a,
                        *b,
                        parts@,
                        nodes@,
                        j,
                        pp,
                    ) by {
                        assert(pclosed_on(*a, *b, parts@, before, j, pp));
                    }
                    assert forall|j: int| lo <= j < id + 1 implies #[trigger] pclosed_on(*a, *b, parts@, nodes@, j, p as int) by {
                        if j < id {
                            assert(pclosed_on(*a, *b, parts@, before, j, p as int));
                        }
                    }
                }
                id += 1;
            }
            p += 1;
        }
        proof {
            lemma_levels_next(nodes@, lo as int, hi as int, level);
            level = level + 1;
        }
        lo = hi;
        hi = nodes.len();
    }
    proof {
        assert forall|w: Seq<char>| !(#[trigger] a.accepts(w) && b.accepts(w)) by {
            assert(pair_search_below(*a, *b, all, parts@, nodes@, w.len() as int));
            lemma_pair_sound(*a, *b, all, parts@, nodes@, w.len() as int, w);
        }
    }
    stopped(BackendStatus::Exhausted, nodes.len(), generated, &started)
}

/// Run the search behind a binary query. An emptiness query asks nothing
/// of a pair of automata: no string settles it, and it ends exhausted.
fn run_binary<K: Clock>(query: Query, left: &Nfa, right: &Nfa, config: &Config, clock: &K) -> (r: BackendResult)
    requires
        left.wf(),
        right.wf(),
        left.scalar_edges(),
        right.scalar_edges(),
    ensures
        crate::laws::sound_outcome(query, *left, *right, r),
        (r.status == BackendStatus::Found) == (r.witness is Some),
        r.status == BackendStatus::Found ==> (r.witness matches Some(w) && forall|u: Seq<char>|
            u.len() < w@.len() ==> #[trigger] relation_of(query, left.accepts(u), right.accepts(u)) is None),
        r.status == BackendStatus::StateLimit ==> r.visited_states >= config.max_product_states,
        r.status != BackendStatus::Found ==> r.visited_states <= config.max_product_states,
        r.visited_states <= config.max_product_states + 1,
        relation_of(query, left.accepts(Seq::empty()), right.accepts(Seq::empty())) is Some ==> (r.status
            == BackendStatus::Found && (r.witness matches Some(w) && w@ == Seq::<char>::empty())),
        r.status == BackendStatus::Timeout ==> exists|t: u128| #[trigger] clock.may_read(t) && t >= config.timeout_ms as u128,
{
    match query {
        Query::Overlap => {
            let r = check_overlap(left, right, config, clock);
            proof {
                if r.status == BackendStatus::Found {
                    let w = r.witness->0;
                    assert forall|u: Seq<char>| u.len() < w@.len() implies #[trigger] relation_of(
                        query,
                        left.accepts(u),
                        right.accepts(u),
                    ) is None by {
                        assert(!(left.accepts(u) && right.accepts(u)));
                    }
                }
            }
            r
        },
        Query::Includes => {
            let r = check_included(left, right, config, clock);
            proof {
                if r.status == BackendStatus::Found {
                    let w = r.witness->0;
                    assert forall|u: Seq<char>| u.len() < w@.len() implies #[trigger] relation_of(
                        query,
                        left.accepts(u),
                        right.accepts(u),
                    ) is None by {
                        assert(!(left.accepts(u) && !right.accepts(u)));
                    }
                }
            }
            r
        },
        Query::Equivalent => {
            let r = check_equivalent(left, right, config, clock);
            proof {
                if r.status == BackendStatus::Exhausted {
                    assert forall|w: Seq<char>| #[trigger] relation_of(query, left.accepts(w), right.accepts(w)) is None by {
                        assert(left.accepts(w) == right.accepts(w));
                    }
                }
                if r.status == BackendStatus::Found {
                    let w = r.witness->0;
                    assert forall|u: Seq<char>| u.len() < w@.len() implies #[trigger] relation_of(
                        query,
                        left.accepts(u),
                        right.accepts(u),
                    ) is None by {
                        assert(left.accepts(u) == right.accepts(u));
                    }
                }
            }
            r
        },
        Query::Empty => {
            let started = instant_now();
            stopped(BackendStatus::Exhausted, 0, 0, &started)
        },
    }
}

/// The antichain engine: inclusion by antichain-pruned search of one
/// automaton against subsets of the other, overlap by a product of single
/// states, equivalence by both inclusions interleaved by string length.
/// Every search runs level by level, so a witness it reports is a shortest
/// one.
#[derive(Clone, Copy, Debug)]
pub struct AntichainBackend;

impl Default for AntichainBackend {
    fn default() -> (r: Self) {
        AntichainBackend
    }
}

impl RelationBackend for AntichainBackend {
    fn name(&self) -> (r: &'static str)
        ensures
            r@ == "antichain"@,
    {
        "antichain"
    }

    fn version(&self) -> (r: &'static str)
        ensures
            r@ == TOOL_VERSION@,
    {
        TOOL_VERSION
    }

    fn analyze_binary(&self, query: Query, left: &Nfa, right: &Nfa, config: &Config) -> (r: BackendResult)
        ensures
            crate::laws::sound_outcome(query, *left, *right, r),
            (r.status == BackendStatus::Found) == (r.witness is Some),
            r.status == BackendStatus::Found ==> (r.witness matches Some(w) && forall|u: Seq<char>|
                u.len() < w@.len() ==> #[trigger] relation_of(query, left.accepts(u), right.accepts(u)) is None),
            r.status == BackendStatus::StateLimit ==> r.visited_states >= config.max_product_states,
            r.status != BackendStatus::Found ==> r.visited_states <= config.max_product_states,
            r.visited_states <= config.max_product_states + 1,
            relation_of(query, left.accepts(Seq::empty()), right.accepts(Seq::empty())) is Some ==> (r.status
                == BackendStatus::Found && (r.witness matches Some(w) && w@ == Seq::<char>::empty())),
    {
        run_binary(query, left, right, config, &WallClock::start())
    }

    fn analyze_empty(&self, nfa: &Nfa, config: &Config) -> (r: BackendResult)
        ensures
            (r.status == BackendStatus::Found) == (r.witness is Some),
            r.status == BackendStatus::Found ==> (r.witness matches Some(w) && nfa.accepts(w@)),
            r.status == BackendStatus::Exhausted ==> forall|w: Seq<char>| !#[trigger] nfa.accepts(w),
            r.status == BackendStatus::Found ==> (r.witness matches Some(w) && forall|u: Seq<char>|
                u.len() < w@.len() ==> !#[trigger] nfa.accepts(u)),
    {
        search_single(nfa, config, &WallClock::start())
    }
}

} // verus!
