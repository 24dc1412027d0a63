//! Walks through the state table of an automaton: the path reading of its
//! language, and the fragments from which the Thompson construction is
//! built.
use super::{Nfa, State};
use vstd::prelude::*;

verus! {

/// One move: from a state, on a character or on ε, to a state.
pub type Move = (usize, Option<char>, usize);

/// The table has the move: an ε-edge, or an edge whose class holds the
/// character.
pub open spec fn move_ok(st: Seq<State>, m: Move) -> bool {
    &&& m.0 < st.len()
    &&& match m.1 {
        None => st[m.0 as int].epsilon@.contains(m.2),
        Some(c) => exists|k: int|
            0 <= k < st[m.0 as int].transitions@.len() && (#[trigger] st[m.0 as int].transitions@[k]).target == m.2
                && st[m.0 as int].transitions@[k].set.has(c as int),
    }
}

/// `ms` leads from `p` to `q`, each move following the last.
pub open spec fn walk(st: Seq<State>, p: usize, ms: Seq<Move>, q: usize) -> bool {
    &&& ms.len() == 0 ==> p == q
    &&& ms.len() > 0 ==> ms[0].0 == p && ms.last().2 == q
    &&& forall|i: int| 0 <= i < ms.len() ==> #[trigger] move_ok(st, ms[i])
    &&& forall|i: int| 0 < i < ms.len() ==> (#[trigger] ms[i]).0 == ms[i - 1].2
}

/// The characters a walk reads.
pub open spec fn word(ms: Seq<Move>) -> Seq<char>
    decreases ms.len(),
{
    if ms.len() == 0 {
        Seq::empty()
    } else {
        match ms.last().1 {
            Some(c) => word(ms.drop_last()).push(c),
            None => word(ms.drop_last()),
        }
    }
}

/// Every move of the walk leaves a state of `lo..hi` other than `e`.
pub open spec fn within(ms: Seq<Move>, lo: int, hi: int, e: usize) -> bool {
    forall|i: int| 0 <= i < ms.len() ==> lo <= (#[trigger] ms[i]).0 < hi && ms[i].0 != e
}

/// Some walk from `s` reads `w` and reaches `e`, leaving only states of
/// `lo..hi` other than `e` on the way.
pub open spec fn reads(st: Seq<State>, lo: int, hi: int, s: usize, e: usize, w: Seq<char>) -> bool {
    exists|ms: Seq<Move>| #[trigger] walk(st, s, ms, e) && word(ms) == w && within(ms, lo, hi, e)
}

/// Every edge of a state of `lo..hi` other than `e` stays in `lo..hi`.
pub open spec fn closed_region(st: Seq<State>, lo: int, hi: int, e: usize) -> bool {
    &&& forall|p: int, k: int|
        lo <= p < hi && p != e && 0 <= k < st[p].epsilon@.len() ==> lo <= #[trigger] st[p].epsilon@[k] < hi
    &&& forall|p: int, k: int|
        lo <= p < hi && p != e && 0 <= k < st[p].transitions@.len() ==> lo <= (#[trigger] st[p].transitions@[k]).target < hi
}

/// States `lo..hi` form a fragment from `s` to `e` whose walks read
/// exactly the strings of `lang`.
#[verifier::opaque]
pub open spec fn fragment(st: Seq<State>, lo: int, hi: int, s: usize, e: usize, lang: spec_fn(Seq<char>) -> bool) -> bool {
    &&& 0 <= lo <= s < hi
    &&& lo <= e < hi
    &&& hi <= st.len()
    &&& closed_region(st, lo, hi, e)
    &&& forall|w: Seq<char>| #[trigger] reads(st, lo, hi, s, e, w) == lang(w)
}

/// The empty string alone.
pub open spec fn eps_lang() -> spec_fn(Seq<char>) -> bool {
    |w: Seq<char>| w.len() == 0
}

/// One character of the class.
pub open spec fn class_lang(set: crate::charset::CharSet) -> spec_fn(Seq<char>) -> bool {
    |w: Seq<char>| w.len() == 1 && set.has(w[0] as int)
}

/// A string of `la` followed by one of `lb`.
pub open spec fn concat_lang(la: spec_fn(Seq<char>) -> bool, lb: spec_fn(Seq<char>) -> bool) -> spec_fn(Seq<char>) -> bool {
    |w: Seq<char>| exists|k: int| 0 <= k <= w.len() && #[trigger] la(w.take(k)) && lb(w.skip(k))
}

/// A string of `la`, optionally followed by one of `lb`.
pub open spec fn optional_lang(la: spec_fn(Seq<char>) -> bool, lb: spec_fn(Seq<char>) -> bool) -> spec_fn(Seq<char>) -> bool {
    |w: Seq<char>| exists|k: int| 0 <= k <= w.len() && #[trigger] la(w.take(k)) && (k == w.len() || lb(w.skip(k)))
}

/// A string of `la` followed by any number of strings of `lb`.
pub open spec fn star_lang(la: spec_fn(Seq<char>) -> bool, lb: spec_fn(Seq<char>) -> bool) -> spec_fn(Seq<char>) -> bool {
    |w: Seq<char>| exists|k: int, m: nat| 0 <= k <= w.len() && #[trigger] la(w.take(k)) && #[trigger] rep(lb, m, w.skip(k))
}

/// A string of one of the first `n` languages of `lang`.
pub open spec fn any_lang(n: int, lang: spec_fn(int, Seq<char>) -> bool) -> spec_fn(Seq<char>) -> bool {
    |w: Seq<char>| exists|j: int| 0 <= j < n && #[trigger] lang(j, w)
}

/// The state has no edge.
pub open spec fn no_edges(st: Seq<State>, p: usize) -> bool {
    &&& st[p as int].epsilon@.len() == 0
    &&& st[p as int].transitions@.len() == 0
}

/// The two tables agree on the states of `lo..hi` other than `e`.
pub open spec fn agree(st: Seq<State>, st2: Seq<State>, lo: int, hi: int, e: usize) -> bool {
    &&& hi <= st.len()
    &&& hi <= st2.len()
    &&& forall|p: int| lo <= p < hi && p != e ==> #[trigger] st2[p] == st[p]
}

/// Reading a walk followed by another.
pub proof fn lemma_word_add(a: Seq<Move>, b: Seq<Move>)
    ensures
        word(a + b) == word(a) + word(b),
    decreases b.len(),
{
    if b.len() == 0 {
        assert(a + b =~= a);
        assert(word(b) =~= Seq::<char>::empty());
        assert(word(a) + word(b) =~= word(a));
    } else {
        lemma_word_add(a, b.drop_last());
        assert((a + b).drop_last() =~= a + b.drop_last());
        assert((a + b).last() == b.last());
        match b.last().1 {
            Some(c) => {
                assert(word(a) + word(b.drop_last()).push(c) =~= (word(a) + word(b.drop_last())).push(c));
            },
            None => {},
        }
    }
}

/// A walk followed by one from where it ends.
pub proof fn lemma_walk_add(st: Seq<State>, p: usize, a: Seq<Move>, q: usize, b: Seq<Move>, r: usize)
    requires
        walk(st, p, a, q),
        walk(st, q, b, r),
    ensures
        walk(st, p, a + b, r),
        word(a + b) == word(a) + word(b),
        forall|lo: int, hi: int, e: usize| within(a, lo, hi, e) && within(b, lo, hi, e) ==> #[trigger] within(a + b, lo, hi, e),
{
    lemma_word_add(a, b);
    let ab = a + b;
    assert forall|i: int| 0 <= i < ab.len() implies #[trigger] move_ok(st, ab[i]) by {
        if i < a.len() {
            assert(ab[i] == a[i]);
        } else {
            assert(ab[i] == b[i - a.len()]);
        }
    }
    assert forall|i: int| 0 < i < ab.len() implies (#[trigger] ab[i]).0 == ab[i - 1].2 by {
        if i < a.len() {
            assert(ab[i] == a[i]);
            assert(ab[i - 1] == a[i - 1]);
        } else if i == a.len() {
            assert(ab[i] == b[0]);
            assert(ab[i - 1] == a[i - 1]);
        } else {
            assert(ab[i] == b[i - a.len()]);
            assert(ab[i - 1] == b[i - 1 - a.len()]);
        }
    }
    if a.len() == 0 {
        assert(ab =~= b);
    } else if b.len() == 0 {
        assert(ab =~= a);
    } else {
        assert(ab[0] == a[0]);
        assert(ab.last() == b.last());
    }
    assert forall|lo: int, hi: int, e: usize| within(a, lo, hi, e) && within(b, lo, hi, e) implies #[trigger] within(
        ab,
        lo,
        hi,
        e,
    ) by {
        assert forall|i: int| 0 <= i < ab.len() implies lo <= (#[trigger] ab[i]).0 < hi && ab[i].0 != e by {
            if i < a.len() {
                assert(ab[i] == a[i]);
            } else {
                assert(ab[i] == b[i - a.len()]);
            }
        }
    }
}

/// The walk of one move.
pub proof fn lemma_walk_one(st: Seq<State>, m: Move)
    requires
        move_ok(st, m),
    ensures
        walk(st, m.0, seq![m], m.2),
        word(seq![m]) == match m.1 {
            Some(c) => seq![c],
            None => Seq::<char>::empty(),
        },
{
    let ms = seq![m];
    assert(ms.drop_last() =~= Seq::<Move>::empty());
    assert(ms.last() == m);
    assert(word(ms.drop_last()) =~= Seq::<char>::empty());
    match m.1 {
        Some(c) => {
            assert(word(ms) =~= seq![c]);
        },
        None => {},
    }
}

/// The first moves of a walk, and the rest.
pub proof fn lemma_walk_split(st: Seq<State>, p: usize, ms: Seq<Move>, q: usize, i: int)
    requires
        walk(st, p, ms, q),
        0 <= i <= ms.len(),
    ensures
        walk(st, p, ms.take(i), if i == 0 { p } else { ms[i - 1].2 }),
        walk(st, if i == 0 { p } else { ms[i - 1].2 }, ms.skip(i), q),
        ms.take(i) + ms.skip(i) == ms,
        word(ms) == word(ms.take(i)) + word(ms.skip(i)),
        forall|lo: int, hi: int, e: usize| #[trigger] within(ms, lo, hi, e) ==> within(ms.take(i), lo, hi, e) && within(ms.skip(i), lo, hi, e),
{
    let a = ms.take(i);
    let b = ms.skip(i);
    assert(a + b =~= ms);
    lemma_word_add(a, b);
    assert forall|j: int| 0 < j < a.len() implies (#[trigger] a[j]).0 == a[j - 1].2 by {
        assert(a[j] == ms[j]);
    }
    assert forall|j: int| 0 <= j < a.len() implies #[trigger] move_ok(st, a[j]) by {
        assert(a[j] == ms[j]);
    }
    assert forall|j: int| 0 < j < b.len() implies (#[trigger] b[j]).0 == b[j - 1].2 by {
        assert(b[j] == ms[j + i]);
        assert(b[j - 1] == ms[j + i - 1]);
    }
    assert forall|j: int| 0 <= j < b.len() implies #[trigger] move_ok(st, b[j]) by {
        assert(b[j] == ms[j + i]);
    }
    if i > 0 && i < ms.len() {
        assert(b[0] == ms[i]);
    }
    assert forall|lo: int, hi: int, e: usize| #[trigger] within(ms, lo, hi, e) implies within(a, lo, hi, e) && within(
        b,
        lo,
        hi,
        e,
    ) by {
        assert forall|j: int| 0 <= j < a.len() implies lo <= (#[trigger] a[j]).0 < hi && a[j].0 != e by {
            assert(a[j] == ms[j]);
        }
        assert forall|j: int| 0 <= j < b.len() implies lo <= (#[trigger] b[j]).0 < hi && b[j].0 != e by {
            assert(b[j] == ms[j + i]);
        }
    }
}

/// A walk that leaves only states of `lo..hi` other than `e` is a walk of
/// any table that agrees there.
pub proof fn lemma_walk_agree(st: Seq<State>, st2: Seq<State>, lo: int, hi: int, e: usize, p: usize, ms: Seq<Move>, q: usize)
    requires
        walk(st, p, ms, q),
        within(ms, lo, hi, e),
        agree(st, st2, lo, hi, e),
    ensures
        walk(st2, p, ms, q),
{
    assert forall|i: int| 0 <= i < ms.len() implies #[trigger] move_ok(st2, ms[i]) by {
        assert(move_ok(st, ms[i]));
        assert(st2[ms[i].0 as int] == st[ms[i].0 as int]);
    }
}

/// Agreeing tables read the same strings inside the fragment, and keep it
/// closed.
pub proof fn lemma_fragment_agree(
    st: Seq<State>,
    st2: Seq<State>,
    lo: int,
    hi: int,
    s: usize,
    e: usize,
    lang: spec_fn(Seq<char>) -> bool,
)
    requires
        fragment(st, lo, hi, s, e, lang),
        agree(st, st2, lo, hi, e),
    ensures
        fragment(st2, lo, hi, s, e, lang),
{
    reveal(fragment);
    assert forall|w: Seq<char>| #[trigger] reads(st2, lo, hi, s, e, w) == lang(w) by {
        if reads(st, lo, hi, s, e, w) {
            let ms = choose|ms: Seq<Move>| #[trigger] walk(st, s, ms, e) && word(ms) == w && within(ms, lo, hi, e);
            lemma_walk_agree(st, st2, lo, hi, e, s, ms, e);
            assert(walk(st2, s, ms, e));
        }
        if reads(st2, lo, hi, s, e, w) {
            let ms = choose|ms: Seq<Move>| #[trigger] walk(st2, s, ms, e) && word(ms) == w && within(ms, lo, hi, e);
            assert forall|p: int| lo <= p < hi && p != e implies #[trigger] st[p] == st2[p] by {
                assert(st2[p] == st[p]);
            }
            lemma_walk_agree(st2, st, lo, hi, e, s, ms, e);
            assert(walk(st, s, ms, e));
        }
    }
    assert forall|p: int, k: int| lo <= p < hi && p != e && 0 <= k < st2[p].epsilon@.len() implies lo
        <= #[trigger] st2[p].epsilon@[k] < hi by {
        assert(st2[p] == st[p]);
    }
    assert forall|p: int, k: int| lo <= p < hi && p != e && 0 <= k < st2[p].transitions@.len() implies lo
        <= (#[trigger] st2[p].transitions@[k]).target < hi by {
        assert(st2[p] == st[p]);
    }
}

/// Where a walk stands after its first `i` moves.
pub open spec fn at(s: usize, ms: Seq<Move>, i: int) -> usize {
    if i == 0 {
        s
    } else {
        ms[i - 1].2
    }
}

/// A move from a state other than `e` of a closed region stays in it.
pub proof fn lemma_move_stays(st: Seq<State>, lo: int, hi: int, e: usize, m: Move)
    requires
        closed_region(st, lo, hi, e),
        move_ok(st, m),
        lo <= m.0 < hi,
        m.0 != e,
    ensures
        lo <= m.2 < hi,
{
    match m.1 {
        None => {
            let k = choose|k: int| 0 <= k < st[m.0 as int].epsilon@.len() && st[m.0 as int].epsilon@[k] == m.2;
            assert(lo <= st[m.0 as int].epsilon@[k] < hi);
        },
        Some(c) => {
            let k = choose|k: int|
                0 <= k < st[m.0 as int].transitions@.len() && (#[trigger] st[m.0 as int].transitions@[k]).target == m.2
                    && st[m.0 as int].transitions@[k].set.has(c as int);
            assert(lo <= st[m.0 as int].transitions@[k].target < hi);
        },
    }
}

proof fn lemma_first_exit_from(st: Seq<State>, lo: int, hi: int, e: usize, s: usize, ms: Seq<Move>, x: usize, j: int) -> (i: int)
    requires
        closed_region(st, lo, hi, e),
        walk(st, s, ms, x),
        0 <= j <= ms.len(),
        within(ms.take(j), lo, hi, e),
        lo <= at(s, ms, j) < hi,
    ensures
        j <= i <= ms.len(),
        within(ms.take(i), lo, hi, e),
        lo <= at(s, ms, i) < hi,
        at(s, ms, i) == e || i == ms.len(),
    decreases ms.len() - j,
{
    if at(s, ms, j) == e || j == ms.len() {
        j
    } else {
        assert(ms[j].0 == at(s, ms, j));
        assert(move_ok(st, ms[j]));
        lemma_move_stays(st, lo, hi, e, ms[j]);
        assert forall|k: int| 0 <= k < ms.take(j + 1).len() implies lo <= (#[trigger] ms.take(j + 1)[k]).0 < hi
            && ms.take(j + 1)[k].0 != e by {
            if k < j {
                assert(ms.take(j + 1)[k] == ms.take(j)[k]);
            }
        }
        lemma_first_exit_from(st, lo, hi, e, s, ms, x, j + 1)
    }
}

/// A walk from a state of a closed region stays in it, moving only from
/// states other than `e`, until it first stands on `e`; if it never does,
/// it ends in the region.
pub proof fn lemma_first_exit(st: Seq<State>, lo: int, hi: int, e: usize, s: usize, ms: Seq<Move>, x: usize) -> (i: int)
    requires
        closed_region(st, lo, hi, e),
        walk(st, s, ms, x),
        lo <= s < hi,
    ensures
        0 <= i <= ms.len(),
        within(ms.take(i), lo, hi, e),
        lo <= at(s, ms, i) < hi,
        at(s, ms, i) == e || i == ms.len(),
        walk(st, s, ms.take(i), at(s, ms, i)),
        walk(st, at(s, ms, i), ms.skip(i), x),
        word(ms) == word(ms.take(i)) + word(ms.skip(i)),
        i == ms.len() ==> at(s, ms, i) == x,
{
    assert(ms.take(0).len() == 0);
    let i = lemma_first_exit_from(st, lo, hi, e, s, ms, x, 0);
    lemma_walk_split(st, s, ms, x, i);
    if i == ms.len() && i > 0 {
        assert(ms.last() == ms[i - 1]);
    }
    i
}

/// The ε-closure holds what it starts from and is closed under ε-edges.
pub proof fn lemma_closure_closed(nfa: Nfa, init: Set<usize>)
    ensures
        init.subset_of(nfa.closure(init)),
        nfa.eps_closed(nfa.closure(init)),
{
    assert forall|x: usize| init.contains(x) implies nfa.closure(init).contains(x) by {
        assert forall|t: Set<usize>| #[trigger] nfa.eps_closed(t) && init.subset_of(t) implies t.contains(x) by {}
    }
    assert forall|q: usize, k: int|
        nfa.closure(init).contains(q) && q < nfa.states@.len() && 0 <= k < nfa.states@[q as int].epsilon@.len()
            implies nfa.closure(init).contains(#[trigger] nfa.states@[q as int].epsilon@[k]) by {
        let y = nfa.states@[q as int].epsilon@[k];
        assert forall|t: Set<usize>| #[trigger] nfa.eps_closed(t) && init.subset_of(t) implies t.contains(y) by {
            assert(nfa.in_closure(init, q));
            assert(t.contains(q));
        }
    }
}

/// The states an automaton reaches on `w` are those where a walk from its
/// start reading `w` ends.
pub proof fn lemma_run_walk(nfa: Nfa, w: Seq<char>)
    requires
        nfa.wf(),
    ensures
        forall|x: usize| #[trigger] nfa.run(w).contains(x) <==> exists|ms: Seq<Move>|
            #[trigger] walk(nfa.states@, nfa.start, ms, x) && word(ms) == w,
    decreases w.len(),
{
    let st = nfa.states@;
    let t = Set::new(|x: usize| exists|ms: Seq<Move>| #[trigger] walk(st, nfa.start, ms, x) && word(ms) == w);
    let init = if w.len() == 0 {
        set![nfa.start]
    } else {
        nfa.moves(nfa.run(w.drop_last()), w.last())
    };
    assert(nfa.run(w) == nfa.closure(init));
    if w.len() > 0 {
        lemma_run_walk(nfa, w.drop_last());
    }
    assert forall|x: usize| init.contains(x) implies t.contains(x) by {
        if w.len() == 0 {
            let ms = Seq::<Move>::empty();
            assert(x == nfa.start);
            assert(walk(st, nfa.start, ms, x));
            assert(word(ms) =~= w);
        } else {
            let u = w.drop_last();
            let c = w.last();
            let (q, k) = choose|q: usize, k: int|
                nfa.run(u).contains(q) && q < st.len() && 0 <= k < st[q as int].transitions@.len()
                    && #[trigger] st[q as int].transitions@[k].target == x && st[q as int].transitions@[k].set.has(c as int);
            let ms = choose|ms: Seq<Move>| #[trigger] walk(st, nfa.start, ms, q) && word(ms) == u;
            let m: Move = (q, Some(c), x);
            assert(st[m.0 as int].transitions@[k].target == m.2 && st[m.0 as int].transitions@[k].set.has(c as int));
            assert(move_ok(st, m));
            lemma_walk_one(st, m);
            lemma_walk_add(st, nfa.start, ms, q, seq![m], x);
            assert(u + seq![c] =~= w);
            assert(walk(st, nfa.start, ms + seq![m], x));
            assert(word(ms + seq![m]) == w);
        }
    }
    assert forall|q: usize, k: int|
        t.contains(q) && q < st.len() && 0 <= k < st[q as int].epsilon@.len() implies t.contains(
        #[trigger] st[q as int].epsilon@[k],
    ) by {
        let y = st[q as int].epsilon@[k];
        let ms = choose|ms: Seq<Move>| #[trigger] walk(st, nfa.start, ms, q) && word(ms) == w;
        let m: Move = (q, None, y);
        assert(st[q as int].epsilon@.contains(y));
        assert(move_ok(st, m));
        lemma_walk_one(st, m);
        lemma_walk_add(st, nfa.start, ms, q, seq![m], y);
        assert(word(ms) + Seq::<char>::empty() =~= w);
        assert(walk(st, nfa.start, ms + seq![m], y));
    }
    assert(nfa.eps_closed(t));
    assert forall|x: usize| #[trigger] nfa.run(w).contains(x) implies exists|ms: Seq<Move>|
        #[trigger] walk(st, nfa.start, ms, x) && word(ms) == w by {
        assert(nfa.in_closure(init, x));
        assert(t.contains(x));
    }
    assert forall|x: usize| (exists|ms: Seq<Move>| #[trigger] walk(st, nfa.start, ms, x) && word(ms) == w) implies #[trigger] nfa.run(
        w,
    ).contains(x) by {
        let ms = choose|ms: Seq<Move>| #[trigger] walk(st, nfa.start, ms, x) && word(ms) == w;
        lemma_walk_in_run(nfa, ms, x);
    }
}

/// The end of a walk from the start lies in the run on the string it reads.
proof fn lemma_walk_in_run(nfa: Nfa, ms: Seq<Move>, x: usize)
    requires
        walk(nfa.states@, nfa.start, ms, x),
    ensures
        nfa.run(word(ms)).contains(x),
    decreases ms.len(),
{
    let st = nfa.states@;
    if ms.len() == 0 {
        lemma_closure_closed(nfa, set![nfa.start]);
        assert(word(ms) =~= Seq::<char>::empty());
    } else {
        let n = ms.len() - 1;
        let m = ms.last();
        lemma_walk_split(st, nfa.start, ms, x, n);
        assert(ms.take(n) =~= ms.drop_last());
        assert(ms[n] == m);
        let q = at(nfa.start, ms, n);
        if n > 0 {
            assert(m.0 == ms[n - 1].2);
        }
        assert(m.0 == q);
        lemma_walk_in_run(nfa, ms.drop_last(), q);
        let u = word(ms.drop_last());
        assert(move_ok(st, m));
        match m.1 {
            None => {
                assert(word(ms) == u);
                let init = if u.len() == 0 {
                    set![nfa.start]
                } else {
                    nfa.moves(nfa.run(u.drop_last()), u.last())
                };
                lemma_closure_closed(nfa, init);
                let k = choose|k: int| 0 <= k < st[q as int].epsilon@.len() && st[q as int].epsilon@[k] == m.2;
                assert(nfa.run(u).contains(st[q as int].epsilon@[k]));
            },
            Some(c) => {
                assert(word(ms) == u.push(c));
                assert(u.push(c).drop_last() =~= u);
                assert(u.push(c).last() == c);
                let k = choose|k: int|
                    0 <= k < st[q as int].transitions@.len() && (#[trigger] st[q as int].transitions@[k]).target == m.2
                        && st[q as int].transitions@[k].set.has(c as int);
                assert(nfa.moves(nfa.run(u), c).contains(x));
                lemma_closure_closed(nfa, nfa.moves(nfa.run(u), c));
            },
        }
    }
}

/// A fragment reads the strings of any language equal to its own.
pub proof fn lemma_fragment_lang(
    st: Seq<State>,
    lo: int,
    hi: int,
    s: usize,
    e: usize,
    l1: spec_fn(Seq<char>) -> bool,
    l2: spec_fn(Seq<char>) -> bool,
)
    requires
        fragment(st, lo, hi, s, e, l1),
        forall|w: Seq<char>| #[trigger] l1(w) == l2(w),
    ensures
        fragment(st, lo, hi, s, e, l2),
{
    reveal(fragment);
    assert forall|w: Seq<char>| #[trigger] reads(st, lo, hi, s, e, w) == l2(w) by {
        assert(reads(st, lo, hi, s, e, w) == l1(w));
    }
}

/// Moves inside a smaller region, away from its end, lie inside a larger
/// region that does not hold that region's states as its end.
pub proof fn lemma_within_widen(ms: Seq<Move>, lo1: int, hi1: int, e1: usize, lo: int, hi: int, e: usize)
    requires
        within(ms, lo1, hi1, e1),
        lo <= lo1,
        hi1 <= hi,
        e == e1 || !(lo1 <= e < hi1),
    ensures
        within(ms, lo, hi, e),
{
    assert forall|i: int| 0 <= i < ms.len() implies lo <= (#[trigger] ms[i]).0 < hi && ms[i].0 != e by {
        assert(lo1 <= ms[i].0 < hi1 && ms[i].0 != e1);
    }
}

/// A walk moving only from states other than `e` cannot move on once it
/// stands on `e`.
pub proof fn lemma_stuck_at_end(st: Seq<State>, ms: Seq<Move>, lo: int, hi: int, e: usize, x: usize)
    requires
        walk(st, e, ms, x),
        within(ms, lo, hi, e),
    ensures
        ms.len() == 0,
        x == e,
        word(ms) == Seq::<char>::empty(),
{
    if ms.len() > 0 {
        assert(ms[0].0 == e);
    }
}

/// The one ε-move of a state whose only edge is an ε-edge to `t`.
pub proof fn lemma_only_eps(st: Seq<State>, p: usize, ms: Seq<Move>, x: usize, ts: Seq<usize>)
    requires
        walk(st, p, ms, x),
        ms.len() > 0,
        p < st.len(),
        st[p as int].epsilon@ == ts,
        st[p as int].transitions@.len() == 0,
    ensures
        ms[0].1 is None,
        ts.contains(ms[0].2),
        walk(st, ms[0].2, ms.skip(1), x),
        word(ms) == word(ms.skip(1)),
        forall|lo: int, hi: int, e: usize| #[trigger] within(ms, lo, hi, e) ==> within(ms.skip(1), lo, hi, e),
{
    assert(move_ok(st, ms[0]));
    lemma_walk_split(st, p, ms, x, 1);
    assert(ms.take(1) =~= seq![ms[0]]);
    lemma_walk_one(st, ms[0]);
    assert(word(ms.take(1)) + word(ms.skip(1)) =~= word(ms.skip(1)));
}

/// Two fresh states joined by one class edge read one character of the
/// class.
pub proof fn lemma_leaf(st: Seq<State>, lo: int, s: usize, e: usize, set: crate::charset::CharSet)
    requires
        s == lo,
        e == lo + 1,
        st.len() == lo + 2,
        st[lo].epsilon@.len() == 0,
        st[lo].transitions@.len() <= 1,
        forall|k: int|
            0 <= k < st[lo].transitions@.len() ==> (#[trigger] st[lo].transitions@[k]).target == lo + 1
                && st[lo].transitions@[k].set == set,
        (exists|v: int| set.has(v)) ==> st[lo].transitions@.len() == 1,
        no_edges(st, e),
    ensures
        fragment(st, lo, lo + 2, s, e, class_lang(set)),
{
    reveal(fragment);
    assert forall|w: Seq<char>| #[trigger] reads(st, lo, lo + 2, s, e, w) == (w.len() == 1 && set.has(w[0] as int)) by {
        if reads(st, lo, lo + 2, s, e, w) {
            let ms = choose|ms: Seq<Move>| #[trigger] walk(st, s, ms, e) && word(ms) == w && within(ms, lo, lo + 2, e);
            assert(ms.len() > 0);
            assert(move_ok(st, ms[0]));
            if ms.len() > 1 {
                assert(ms[1].0 == ms[0].2);
                assert(ms[1].0 != e);
            }
            assert(ms.len() == 1);
            match ms[0].1 {
                None => {
                    let k = choose|k: int| 0 <= k < st[s as int].epsilon@.len() && st[s as int].epsilon@[k] == ms[0].2;
                },
                Some(c) => {
                    let k = choose|k: int|
                        0 <= k < st[s as int].transitions@.len() && (#[trigger] st[s as int].transitions@[k]).target
                            == ms[0].2 && st[s as int].transitions@[k].set.has(c as int);
                    assert(ms =~= seq![ms[0]]);
                    lemma_walk_one(st, ms[0]);
                },
            }
        }
        if w.len() == 1 && set.has(w[0] as int) {
            let c = w[0];
            assert(st[lo].transitions@.len() == 1);
            let m: Move = (s, Some(c), e);
            assert(st[lo].transitions@[0].target == e);
            assert(move_ok(st, m));
            lemma_walk_one(st, m);
            assert(seq![c] =~= w);
            assert(within(seq![m], lo, lo + 2, e));
            assert(walk(st, s, seq![m], e));
        }
    }
}

/// Two fresh states joined by one ε-edge read the empty string.
pub proof fn lemma_eps_pair(st: Seq<State>, lo: int, s: usize, e: usize)
    requires
        s == lo,
        e == lo + 1,
        st.len() == lo + 2,
        st[lo].epsilon@ == seq![e],
        st[lo].transitions@.len() == 0,
        no_edges(st, e),
    ensures
        fragment(st, lo, lo + 2, s, e, eps_lang()),
{
    reveal(fragment);
    assert forall|w: Seq<char>| #[trigger] reads(st, lo, lo + 2, s, e, w) == (w.len() == 0) by {
        if reads(st, lo, lo + 2, s, e, w) {
            let ms = choose|ms: Seq<Move>| #[trigger] walk(st, s, ms, e) && word(ms) == w && within(ms, lo, lo + 2, e);
            lemma_only_eps(st, s, ms, e, seq![e]);
            lemma_stuck_at_end(st, ms.skip(1), lo, lo + 2, e, e);
        }
        if w.len() == 0 {
            let m: Move = (s, None, e);
            assert(st[lo].epsilon@[0] == e);
            assert(move_ok(st, m));
            lemma_walk_one(st, m);
            assert(w =~= Seq::<char>::empty());
            assert(within(seq![m], lo, lo + 2, e));
            assert(walk(st, s, seq![m], e));
        }
    }
    assert forall|p: int, k: int| lo <= p < lo + 2 && p != e && 0 <= k < st[p].epsilon@.len() implies lo
        <= #[trigger] st[p].epsilon@[k] < lo + 2 by {
        assert(st[p].epsilon@[k] == e);
    }
}

/// What a walk through two joined fragments reads.
proof fn lemma_concat_reads(
    st: Seq<State>,
    lo: int,
    mid: int,
    hi: int,
    s: usize,
    ea: usize,
    sb: usize,
    eb: usize,
    w: Seq<char>,
) -> (k: int)
    requires
        closed_region(st, lo, mid, ea),
        closed_region(st, mid, hi, eb),
        lo <= s < mid,
        lo <= ea < mid,
        mid <= sb < hi,
        mid <= eb < hi,
        hi <= st.len(),
        st[ea as int].epsilon@ == seq![sb],
        st[ea as int].transitions@.len() == 0,
        reads(st, lo, hi, s, eb, w),
    ensures
        0 <= k <= w.len(),
        reads(st, lo, mid, s, ea, w.take(k)),
        reads(st, mid, hi, sb, eb, w.skip(k)),
{
    let ms = choose|ms: Seq<Move>| #[trigger] walk(st, s, ms, eb) && word(ms) == w && within(ms, lo, hi, eb);
    let i = lemma_first_exit(st, lo, mid, ea, s, ms, eb);
    let a = ms.take(i);
    let rest = ms.skip(i);
    lemma_walk_split(st, s, ms, eb, i);
    assert(walk(st, s, a, ea));
    let u = word(a);
    assert(reads(st, lo, mid, s, ea, u));
    lemma_only_eps(st, ea, rest, eb, seq![sb]);
    let r2 = rest.skip(1);
    let j = lemma_first_exit(st, mid, hi, eb, sb, r2, eb);
    lemma_walk_split(st, sb, r2, eb, j);
    lemma_stuck_at_end(st, r2.skip(j), lo, hi, eb, eb);
    let v = word(r2.take(j));
    assert(walk(st, sb, r2.take(j), eb));
    assert(reads(st, mid, hi, sb, eb, v));
    assert(w =~= u + v);
    assert(w.take(u.len() as int) =~= u);
    assert(w.skip(u.len() as int) =~= v);
    u.len() as int
}

/// A walk through one fragment, the joining ε-edge, and another.
proof fn lemma_concat_walk(
    st: Seq<State>,
    lo: int,
    mid: int,
    hi: int,
    s: usize,
    ea: usize,
    sb: usize,
    eb: usize,
    u: Seq<char>,
    v: Seq<char>,
)
    requires
        lo <= ea < mid,
        mid <= eb < hi,
        hi <= st.len(),
        st[ea as int].epsilon@ == seq![sb],
        reads(st, lo, mid, s, ea, u),
        reads(st, mid, hi, sb, eb, v),
    ensures
        reads(st, lo, hi, s, eb, u + v),
{
    let a = choose|ms: Seq<Move>| #[trigger] walk(st, s, ms, ea) && word(ms) == u && within(ms, lo, mid, ea);
    let b = choose|ms: Seq<Move>| #[trigger] walk(st, sb, ms, eb) && word(ms) == v && within(ms, mid, hi, eb);
    let m: Move = (ea, None, sb);
    assert(st[ea as int].epsilon@[0] == sb);
    assert(move_ok(st, m));
    lemma_walk_one(st, m);
    lemma_walk_add(st, s, a, ea, seq![m], sb);
    lemma_walk_add(st, s, a + seq![m], sb, b, eb);
    lemma_within_widen(a, lo, mid, ea, lo, hi, eb);
    lemma_within_widen(b, mid, hi, eb, lo, hi, eb);
    assert(within(seq![m], lo, hi, eb));
    assert(u + Seq::<char>::empty() + v =~= u + v);
    assert(walk(st, s, a + seq![m] + b, eb));
}

/// One fragment joined by an ε-edge from its end to the start of another
/// reads a string of the first followed by one of the second.
pub proof fn lemma_concat_step(
    st: Seq<State>,
    lo: int,
    mid: int,
    hi: int,
    s: usize,
    ea: usize,
    sb: usize,
    eb: usize,
    la: spec_fn(Seq<char>) -> bool,
    lb: spec_fn(Seq<char>) -> bool,
)
    requires
        fragment(st, lo, mid, s, ea, la),
        fragment(st, mid, hi, sb, eb, lb),
        st[ea as int].epsilon@ == seq![sb],
        st[ea as int].transitions@.len() == 0,
    ensures
        fragment(st, lo, hi, s, eb, concat_lang(la, lb)),
{
    reveal(fragment);
    let l = concat_lang(la, lb);
    assert forall|w: Seq<char>| #[trigger] reads(st, lo, hi, s, eb, w) == l(w) by {
        if reads(st, lo, hi, s, eb, w) {
            let k = lemma_concat_reads(st, lo, mid, hi, s, ea, sb, eb, w);
            assert(la(w.take(k)) && lb(w.skip(k)));
        }
        if l(w) {
            let k = choose|k: int| 0 <= k <= w.len() && #[trigger] la(w.take(k)) && lb(w.skip(k));
            assert(reads(st, lo, mid, s, ea, w.take(k)));
            assert(reads(st, mid, hi, sb, eb, w.skip(k)));
            lemma_concat_walk(st, lo, mid, hi, s, ea, sb, eb, w.take(k), w.skip(k));
            assert(w.take(k) + w.skip(k) =~= w);
        }
    }
    assert forall|p: int, k: int| lo <= p < hi && p != eb && 0 <= k < st[p].epsilon@.len() implies lo
        <= #[trigger] st[p].epsilon@[k] < hi by {
        if p == ea {
            assert(st[p].epsilon@[k] == sb);
        } else if p < mid {
            assert(lo <= st[p].epsilon@[k] < mid);
        } else {
            assert(mid <= st[p].epsilon@[k] < hi);
        }
    }
    assert forall|p: int, k: int| lo <= p < hi && p != eb && 0 <= k < st[p].transitions@.len() implies lo
        <= (#[trigger] st[p].transitions@[k]).target < hi by {
        if p < mid {
            assert(lo <= st[p].transitions@[k].target < mid);
        } else {
            assert(mid <= st[p].transitions@[k].target < hi);
        }
    }
}

/// A walk from a state whose only edges are ε-edges to `t1` and `t2` (in
/// that order), moving from states of `lo..hi` other than `x`, ends at `x`;
/// where its first move goes.
proof fn lemma_fork(st: Seq<State>, p: usize, ms: Seq<Move>, x: usize, t1: usize, t2: usize)
    requires
        walk(st, p, ms, x),
        ms.len() > 0,
        p < st.len(),
        st[p as int].epsilon@ == seq![t1, t2],
        st[p as int].transitions@.len() == 0,
    ensures
        ms[0].2 == t1 || ms[0].2 == t2,
        walk(st, ms[0].2, ms.skip(1), x),
        word(ms) == word(ms.skip(1)),
        forall|lo: int, hi: int, e: usize| #[trigger] within(ms, lo, hi, e) ==> within(ms.skip(1), lo, hi, e),
{
    lemma_only_eps(st, p, ms, x, seq![t1, t2]);
    let k = choose|k: int| 0 <= k < 2 && seq![t1, t2][k] == ms[0].2;
}

/// An ε-move the table has.
proof fn lemma_eps_move(st: Seq<State>, p: usize, t: usize, k: int)
    requires
        p < st.len(),
        0 <= k < st[p as int].epsilon@.len(),
        st[p as int].epsilon@[k] == t,
    ensures
        walk(st, p, seq![(p, Option::<char>::None, t)], t),
        word(seq![(p, Option::<char>::None, t)]) == Seq::<char>::empty(),
{
    let m: Move = (p, None, t);
    assert(move_ok(st, m));
    lemma_walk_one(st, m);
}

/// What a walk through a fragment and an optional second one reads.
proof fn lemma_optional_reads(
    st: Seq<State>,
    lo: int,
    mid: int,
    hi: int,
    s: usize,
    ea: usize,
    o: usize,
    sc: usize,
    ec: usize,
    w: Seq<char>,
) -> (k: int)
    requires
        closed_region(st, lo, mid, ea),
        closed_region(st, mid + 1, hi, ec),
        lo <= s < mid,
        lo <= ea < mid,
        mid + 1 <= sc < hi,
        mid + 1 <= ec < hi,
        hi <= st.len(),
        o == mid,
        st[ea as int].epsilon@ == seq![o, sc],
        st[ea as int].transitions@.len() == 0,
        st[ec as int].epsilon@ == seq![o],
        st[ec as int].transitions@.len() == 0,
        reads(st, lo, hi, s, o, w),
    ensures
        0 <= k <= w.len(),
        reads(st, lo, mid, s, ea, w.take(k)),
        k == w.len() || reads(st, mid + 1, hi, sc, ec, w.skip(k)),
{
    let ms = choose|ms: Seq<Move>| #[trigger] walk(st, s, ms, o) && word(ms) == w && within(ms, lo, hi, o);
    let i = lemma_first_exit(st, lo, mid, ea, s, ms, o);
    let a = ms.take(i);
    let rest = ms.skip(i);
    lemma_walk_split(st, s, ms, o, i);
    let u = word(a);
    assert(walk(st, s, a, ea));
    assert(reads(st, lo, mid, s, ea, u));
    lemma_fork(st, ea, rest, o, o, sc);
    let r2 = rest.skip(1);
    if rest[0].2 == o {
        lemma_stuck_at_end(st, r2, lo, hi, o, o);
        assert(w =~= u);
        assert(w.take(w.len() as int) =~= u);
        w.len() as int
    } else {
        let j = lemma_first_exit(st, mid + 1, hi, ec, sc, r2, o);
        lemma_walk_split(st, sc, r2, o, j);
        let v = word(r2.take(j));
        assert(walk(st, sc, r2.take(j), ec));
        assert(reads(st, mid + 1, hi, sc, ec, v));
        let r3 = r2.skip(j);
        lemma_only_eps(st, ec, r3, o, seq![o]);
        lemma_stuck_at_end(st, r3.skip(1), lo, hi, o, o);
        assert(w =~= u + v);
        assert(w.take(u.len() as int) =~= u);
        assert(w.skip(u.len() as int) =~= v);
        u.len() as int
    }
}

/// A walk through a fragment and, when `v` is given, a second one.
proof fn lemma_optional_walk(
    st: Seq<State>,
    lo: int,
    mid: int,
    hi: int,
    s: usize,
    ea: usize,
    o: usize,
    sc: usize,
    ec: usize,
    u: Seq<char>,
    v: Option<Seq<char>>,
)
    requires
        lo <= ea < mid,
        mid + 1 <= ec < hi,
        hi <= st.len(),
        o == mid,
        st[ea as int].epsilon@ == seq![o, sc],
        st[ec as int].epsilon@ == seq![o],
        reads(st, lo, mid, s, ea, u),
        v matches Some(v) ==> reads(st, mid + 1, hi, sc, ec, v),
    ensures
        reads(
            st,
            lo,
            hi,
            s,
            o,
            match v {
                Some(v) => u + v,
                None => u,
            },
        ),
{
    let a = choose|ms: Seq<Move>| #[trigger] walk(st, s, ms, ea) && word(ms) == u && within(ms, lo, mid, ea);
    lemma_within_widen(a, lo, mid, ea, lo, hi, o);
    match v {
        None => {
            lemma_eps_move(st, ea, o, 0);
            lemma_walk_add(st, s, a, ea, seq![(ea, Option::<char>::None, o)], o);
            assert(within(seq![(ea, Option::<char>::None, o)], lo, hi, o));
            assert(u + Seq::<char>::empty() =~= u);
            assert(walk(st, s, a + seq![(ea, Option::<char>::None, o)], o));
        },
        Some(v) => {
            let c = choose|ms: Seq<Move>| #[trigger] walk(st, sc, ms, ec) && word(ms) == v && within(ms, mid + 1, hi, ec);
            lemma_within_widen(c, mid + 1, hi, ec, lo, hi, o);
            let m1 = seq![(ea, Option::<char>::None, sc)];
            let m2 = seq![(ec, Option::<char>::None, o)];
            lemma_eps_move(st, ea, sc, 1);
            lemma_eps_move(st, ec, o, 0);
            lemma_walk_add(st, s, a, ea, m1, sc);
            lemma_walk_add(st, s, a + m1, sc, c, ec);
            lemma_walk_add(st, s, a + m1 + c, ec, m2, o);
            assert(within(m1, lo, hi, o));
            assert(within(m2, lo, hi, o));
            assert(u + Seq::<char>::empty() + v + Seq::<char>::empty() =~= u + v);
            assert(walk(st, s, a + m1 + c + m2, o));
        },
    }
}

/// A fragment whose end may skip past a second fragment, straight to a
/// fresh end `o` that the second one's end also reaches, reads a string of
/// the first, optionally followed by one of the second.
pub proof fn lemma_optional_step(
    st: Seq<State>,
    lo: int,
    mid: int,
    hi: int,
    s: usize,
    ea: usize,
    o: usize,
    sc: usize,
    ec: usize,
    la: spec_fn(Seq<char>) -> bool,
    lc: spec_fn(Seq<char>) -> bool,
)
    requires
        fragment(st, lo, mid, s, ea, la),
        fragment(st, mid + 1, hi, sc, ec, lc),
        o == mid,
        st[ea as int].epsilon@ == seq![o, sc],
        st[ea as int].transitions@.len() == 0,
        st[ec as int].epsilon@ == seq![o],
        st[ec as int].transitions@.len() == 0,
    ensures
        fragment(st, lo, hi, s, o, optional_lang(la, lc)),
{
    reveal(fragment);
    let l = optional_lang(la, lc);
    assert forall|w: Seq<char>| #[trigger] reads(st, lo, hi, s, o, w) == l(w) by {
        if reads(st, lo, hi, s, o, w) {
            let k = lemma_optional_reads(st, lo, mid, hi, s, ea, o, sc, ec, w);
            assert(la(w.take(k)) && (k == w.len() || lc(w.skip(k))));
        }
        if l(w) {
            let k = choose|k: int| 0 <= k <= w.len() && #[trigger] la(w.take(k)) && (k == w.len() || lc(w.skip(k)));
            assert(reads(st, lo, mid, s, ea, w.take(k)));
            if k == w.len() {
                lemma_optional_walk(st, lo, mid, hi, s, ea, o, sc, ec, w.take(k), None);
                assert(w.take(k) =~= w);
            } else {
                assert(reads(st, mid + 1, hi, sc, ec, w.skip(k)));
                lemma_optional_walk(st, lo, mid, hi, s, ea, o, sc, ec, w.take(k), Some(w.skip(k)));
                assert(w.take(k) + w.skip(k) =~= w);
            }
        }
    }
    assert forall|p: int, k: int| lo <= p < hi && p != o && 0 <= k < st[p].epsilon@.len() implies lo
        <= #[trigger] st[p].epsilon@[k] < hi by {
        if p == ea {
            assert(st[p].epsilon@[k] == o || st[p].epsilon@[k] == sc);
        } else if p == ec {
            assert(st[p].epsilon@[k] == o);
        } else if p < mid {
            assert(lo <= st[p].epsilon@[k] < mid);
        } else {
            assert(mid + 1 <= st[p].epsilon@[k] < hi);
        }
    }
    assert forall|p: int, k: int| lo <= p < hi && p != o && 0 <= k < st[p].transitions@.len() implies lo
        <= (#[trigger] st[p].transitions@[k]).target < hi by {
        if p < mid {
            assert(lo <= st[p].transitions@[k].target < mid);
        } else {
            assert(mid + 1 <= st[p].transitions@[k].target < hi);
        }
    }
}

/// `v` is `m` strings of `l`, one after another.
pub open spec fn rep(l: spec_fn(Seq<char>) -> bool, m: nat, v: Seq<char>) -> bool
    decreases m,
{
    if m == 0 {
        v.len() == 0
    } else {
        exists|k: int| 0 <= k <= v.len() && rep(l, (m - 1) as nat, #[trigger] v.take(k)) && l(v.skip(k))
    }
}

/// One more string of `l` after `m - 1` of them.
pub proof fn lemma_rep_unfold(l: spec_fn(Seq<char>) -> bool, m: nat, v: Seq<char>)
    requires
        m > 0,
    ensures
        rep(l, m, v) == (exists|k: int| 0 <= k <= v.len() && rep(l, (m - 1) as nat, #[trigger] v.take(k)) && l(v.skip(k))),
{
    assert(m != 0);
    assert(rep(l, m, v) == (exists|k: int| 0 <= k <= v.len() && rep(l, (m - 1) as nat, #[trigger] v.take(k)) && l(v.skip(k))));
}

/// A string of `l` in front of `m` of them makes `m + 1`.
pub proof fn lemma_rep_prepend(l: spec_fn(Seq<char>) -> bool, m: nat, v1: Seq<char>, v2: Seq<char>)
    requires
        l(v1),
        rep(l, m, v2),
    ensures
        rep(l, m + 1, v1 + v2),
    decreases m,
{
    let v = v1 + v2;
    if m == 0 {
        lemma_rep_unfold(l, 1, v);
        assert(v2.len() == 0);
        assert(v.take(0).len() == 0);
        assert(v.skip(0) =~= v1);
        assert(rep(l, 0, v.take(0)));
    } else {
        lemma_rep_unfold(l, m, v2);
        lemma_rep_unfold(l, m + 1, v);
        let k = choose|k: int| 0 <= k <= v2.len() && rep(l, (m - 1) as nat, #[trigger] v2.take(k)) && l(v2.skip(k));
        lemma_rep_prepend(l, (m - 1) as nat, v1, v2.take(k));
        let kk = v1.len() + k;
        assert(v.take(kk) =~= v1 + v2.take(k));
        assert(v.skip(kk) =~= v2.skip(k));
        assert(rep(l, m, v.take(kk)));
    }
}

/// `a` strings of `l` followed by `b` more are `a + b` of them, and back.
pub proof fn lemma_rep_add(l: spec_fn(Seq<char>) -> bool, a: nat, b: nat, w: Seq<char>)
    ensures
        rep(l, a + b, w) <==> exists|k: int| 0 <= k <= w.len() && rep(l, a, #[trigger] w.take(k)) && rep(l, b, w.skip(k)),
    decreases b,
{
    if b == 0 {
        if rep(l, a + b, w) {
            assert(w.take(w.len() as int) =~= w);
            assert(w.skip(w.len() as int).len() == 0);
            assert(rep(l, a, w.take(w.len() as int)) && rep(l, b, w.skip(w.len() as int)));
        }
        if exists|k: int| 0 <= k <= w.len() && rep(l, a, #[trigger] w.take(k)) && rep(l, b, w.skip(k)) {
            let k = choose|k: int| 0 <= k <= w.len() && rep(l, a, #[trigger] w.take(k)) && rep(l, b, w.skip(k));
            assert(w.take(k) =~= w);
        }
    } else {
        let n = (a + b - 1) as nat;
        lemma_rep_unfold(l, a + b, w);
        lemma_rep_unfold(l, b, w.skip(0));
        if rep(l, a + b, w) {
            let k1 = choose|k1: int| 0 <= k1 <= w.len() && rep(l, n, #[trigger] w.take(k1)) && l(w.skip(k1));
            let x = w.take(k1);
            lemma_rep_add(l, a, (b - 1) as nat, x);
            assert(a + (b - 1) as nat == n);
            assert(rep(l, (a + (b - 1) as nat) as nat, x));
            let k2 = choose|k2: int| 0 <= k2 <= x.len() && rep(l, a, #[trigger] x.take(k2)) && rep(l, (b - 1) as nat, x.skip(k2));
            assert(x.take(k2) =~= w.take(k2));
            let y = w.skip(k2);
            let j = k1 - k2;
            assert(y.take(j) =~= x.skip(k2));
            assert(y.skip(j) =~= w.skip(k1));
            lemma_rep_unfold(l, b, y);
            assert(rep(l, (b - 1) as nat, y.take(j)) && l(y.skip(j)));
            assert(rep(l, b, y));
            assert(rep(l, a, w.take(k2)) && rep(l, b, w.skip(k2)));
        }
        if exists|k: int| 0 <= k <= w.len() && rep(l, a, #[trigger] w.take(k)) && rep(l, b, w.skip(k)) {
            let k = choose|k: int| 0 <= k <= w.len() && rep(l, a, #[trigger] w.take(k)) && rep(l, b, w.skip(k));
            let y = w.skip(k);
            lemma_rep_unfold(l, b, y);
            let j = choose|j: int| 0 <= j <= y.len() && rep(l, (b - 1) as nat, #[trigger] y.take(j)) && l(y.skip(j));
            let k1 = k + j;
            let x = w.take(k1);
            assert(x.take(k) =~= w.take(k));
            assert(x.skip(k) =~= y.take(j));
            lemma_rep_add(l, a, (b - 1) as nat, x);
            assert(a + (b - 1) as nat == n);
            assert(rep(l, n, x));
            assert(w.skip(k1) =~= y.skip(j));
            assert(rep(l, a + b, w));
        }
    }
}

/// A walk that enters a loop fragment at its start and leaves through its
/// end to the fresh state `o` reads one or more strings of the fragment.
proof fn lemma_loop_reads(
    st: Seq<State>,
    lo: int,
    mid: int,
    hi: int,
    o: usize,
    sc: usize,
    ec: usize,
    lc: spec_fn(Seq<char>) -> bool,
    ms: Seq<Move>,
) -> (m: nat)
    requires
        fragment(st, mid + 1, hi, sc, ec, lc),
        o == mid,
        lo <= mid,
        st[ec as int].epsilon@ == seq![o, sc],
        st[ec as int].transitions@.len() == 0,
        walk(st, sc, ms, o),
        within(ms, lo, hi, o),
    ensures
        m >= 1,
        rep(lc, m, word(ms)),
    decreases ms.len(),
{
    reveal(fragment);
    let j = lemma_first_exit(st, mid + 1, hi, ec, sc, ms, o);
    lemma_walk_split(st, sc, ms, o, j);
    let v1 = word(ms.take(j));
    assert(walk(st, sc, ms.take(j), ec));
    assert(reads(st, mid + 1, hi, sc, ec, v1));
    assert(lc(v1));
    let rest = ms.skip(j);
    lemma_fork(st, ec, rest, o, o, sc);
    let r2 = rest.skip(1);
    if rest[0].2 == o {
        lemma_stuck_at_end(st, r2, lo, hi, o, o);
        assert(word(ms) =~= v1);
        lemma_rep_unfold(lc, 1, v1);
        assert(v1.take(0).len() == 0);
        assert(v1.skip(0) =~= v1);
        assert(rep(lc, 0, v1.take(0)));
        1
    } else {
        let m2 = lemma_loop_reads(st, lo, mid, hi, o, sc, ec, lc, r2);
        lemma_rep_prepend(lc, m2, v1, word(r2));
        assert(word(ms) == v1 + word(r2));
        m2 + 1
    }
}

/// A walk through `m` rounds of a loop fragment, from its start to its end.
proof fn lemma_loop_walk(
    st: Seq<State>,
    mid: int,
    hi: int,
    o: usize,
    sc: usize,
    ec: usize,
    lc: spec_fn(Seq<char>) -> bool,
    m: nat,
    v: Seq<char>,
) -> (ms: Seq<Move>)
    requires
        fragment(st, mid + 1, hi, sc, ec, lc),
        o == mid,
        st[ec as int].epsilon@ == seq![o, sc],
        m >= 1,
        rep(lc, m, v),
    ensures
        walk(st, sc, ms, ec),
        word(ms) == v,
        within(ms, mid + 1, hi, o),
    decreases m,
{
    reveal(fragment);
    lemma_rep_unfold(lc, m, v);
    let k = choose|k: int| 0 <= k <= v.len() && rep(lc, (m - 1) as nat, #[trigger] v.take(k)) && lc(v.skip(k));
    assert(reads(st, mid + 1, hi, sc, ec, v.skip(k)));
    let c = choose|ms: Seq<Move>| #[trigger] walk(st, sc, ms, ec) && word(ms) == v.skip(k) && within(ms, mid + 1, hi, ec);
    lemma_within_widen(c, mid + 1, hi, ec, mid + 1, hi, o);
    if m == 1 {
        assert(v.take(k).len() == 0);
        assert(v.skip(k) =~= v);
        c
    } else {
        let a = lemma_loop_walk(st, mid, hi, o, sc, ec, lc, (m - 1) as nat, v.take(k));
        let m1 = seq![(ec, Option::<char>::None, sc)];
        lemma_eps_move(st, ec, sc, 1);
        lemma_walk_add(st, sc, a, ec, m1, sc);
        lemma_walk_add(st, sc, a + m1, sc, c, ec);
        assert(within(m1, mid + 1, hi, o));
        assert(v.take(k) + Seq::<char>::empty() + v.skip(k) =~= v);
        a + m1 + c
    }
}

/// What a walk through a fragment and then a loop reads.
proof fn lemma_star_reads(
    st: Seq<State>,
    lo: int,
    mid: int,
    hi: int,
    s: usize,
    ea: usize,
    o: usize,
    sc: usize,
    ec: usize,
    lc: spec_fn(Seq<char>) -> bool,
    w: Seq<char>,
) -> (r: (int, nat))
    requires
        closed_region(st, lo, mid, ea),
        fragment(st, mid + 1, hi, sc, ec, lc),
        lo <= s < mid,
        lo <= ea < mid,
        o == mid,
        st[ea as int].epsilon@ == seq![o, sc],
        st[ea as int].transitions@.len() == 0,
        st[ec as int].epsilon@ == seq![o, sc],
        st[ec as int].transitions@.len() == 0,
        reads(st, lo, hi, s, o, w),
    ensures
        0 <= r.0 <= w.len(),
        reads(st, lo, mid, s, ea, w.take(r.0)),
        rep(lc, r.1, w.skip(r.0)),
{
    reveal(fragment);
    let ms = choose|ms: Seq<Move>| #[trigger] walk(st, s, ms, o) && word(ms) == w && within(ms, lo, hi, o);
    let i = lemma_first_exit(st, lo, mid, ea, s, ms, o);
    let a = ms.take(i);
    let rest = ms.skip(i);
    lemma_walk_split(st, s, ms, o, i);
    let u = word(a);
    assert(walk(st, s, a, ea));
    assert(reads(st, lo, mid, s, ea, u));
    lemma_fork(st, ea, rest, o, o, sc);
    let r2 = rest.skip(1);
    assert(w.take(u.len() as int) =~= u);
    if rest[0].2 == o {
        lemma_stuck_at_end(st, r2, lo, hi, o, o);
        assert(w =~= u);
        assert(w.skip(u.len() as int).len() == 0);
        (u.len() as int, 0)
    } else {
        let m = lemma_loop_reads(st, lo, mid, hi, o, sc, ec, lc, r2);
        assert(w =~= u + word(r2));
        assert(w.skip(u.len() as int) =~= word(r2));
        (u.len() as int, m)
    }
}

/// A fragment whose end leads to a fresh end `o` either directly or
/// through any number of rounds of a loop fragment reads a string of the
/// first followed by any number of strings of the loop.
pub proof fn lemma_star_step(
    st: Seq<State>,
    lo: int,
    mid: int,
    hi: int,
    s: usize,
    ea: usize,
    o: usize,
    sc: usize,
    ec: usize,
    la: spec_fn(Seq<char>) -> bool,
    lc: spec_fn(Seq<char>) -> bool,
)
    requires
        fragment(st, lo, mid, s, ea, la),
        fragment(st, mid + 1, hi, sc, ec, lc),
        o == mid,
        st[ea as int].epsilon@ == seq![o, sc],
        st[ea as int].transitions@.len() == 0,
        st[ec as int].epsilon@ == seq![o, sc],
        st[ec as int].transitions@.len() == 0,
    ensures
        fragment(st, lo, hi, s, o, star_lang(la, lc)),
{
    reveal(fragment);
    let l = star_lang(la, lc);
    assert forall|w: Seq<char>| #[trigger] reads(st, lo, hi, s, o, w) == l(w) by {
        if reads(st, lo, hi, s, o, w) {
            let (k, m) = lemma_star_reads(st, lo, mid, hi, s, ea, o, sc, ec, lc, w);
            assert(la(w.take(k)) && rep(lc, m, w.skip(k)));
        }
        if l(w) {
            let (k, m) = choose|k: int, m: nat| 0 <= k <= w.len() && #[trigger] la(w.take(k)) && #[trigger] rep(lc, m, w.skip(k));
            assert(reads(st, lo, mid, s, ea, w.take(k)));
            let a = choose|ms: Seq<Move>| #[trigger] walk(st, s, ms, ea) && word(ms) == w.take(k) && within(ms, lo, mid, ea);
            lemma_within_widen(a, lo, mid, ea, lo, hi, o);
            if m == 0 {
                assert(w.skip(k).len() == 0);
                lemma_eps_move(st, ea, o, 0);
                lemma_walk_add(st, s, a, ea, seq![(ea, Option::<char>::None, o)], o);
                assert(within(seq![(ea, Option::<char>::None, o)], lo, hi, o));
                assert(w.take(k) + Seq::<char>::empty() =~= w);
                assert(walk(st, s, a + seq![(ea, Option::<char>::None, o)], o));
            } else {
                let c = lemma_loop_walk(st, mid, hi, o, sc, ec, lc, m, w.skip(k));
                lemma_within_widen(c, mid + 1, hi, o, lo, hi, o);
                let m1 = seq![(ea, Option::<char>::None, sc)];
                let m2 = seq![(ec, Option::<char>::None, o)];
                lemma_eps_move(st, ea, sc, 1);
                lemma_eps_move(st, ec, o, 0);
                lemma_walk_add(st, s, a, ea, m1, sc);
                lemma_walk_add(st, s, a + m1, sc, c, ec);
                lemma_walk_add(st, s, a + m1 + c, ec, m2, o);
                assert(within(m1, lo, hi, o));
                assert(within(m2, lo, hi, o));
                assert(w.take(k) + Seq::<char>::empty() + w.skip(k) + Seq::<char>::empty() =~= w);
                assert(walk(st, s, a + m1 + c + m2, o));
            }
        }
    }
    assert forall|p: int, k: int| lo <= p < hi && p != o && 0 <= k < st[p].epsilon@.len() implies lo
        <= #[trigger] st[p].epsilon@[k] < hi by {
        if p == ea || p == ec {
            assert(st[p].epsilon@[k] == o || st[p].epsilon@[k] == sc);
        } else if p < mid {
            assert(lo <= st[p].epsilon@[k] < mid);
        } else {
            assert(mid + 1 <= st[p].epsilon@[k] < hi);
        }
    }
    assert forall|p: int, k: int| lo <= p < hi && p != o && 0 <= k < st[p].transitions@.len() implies lo
        <= (#[trigger] st[p].transitions@[k]).target < hi by {
        if p < mid {
            assert(lo <= st[p].transitions@[k].target < mid);
        } else {
            assert(mid + 1 <= st[p].transitions@[k].target < hi);
        }
    }
}

/// An alternation from `lo` to `lo + 1`: the start's only edges are
/// ε-edges to the branch starts, in order; the branches are fragments laid
/// one after another from `lo + 2` up to `hi`, branch `j` reading the
/// strings of `lang(j, _)`, and each branch end leads only to `lo + 1`,
/// which has no edge.
pub open spec fn alt_ok(
    st: Seq<State>,
    lo: int,
    hi: int,
    regs: Seq<(usize, usize, usize, usize)>,
    lang: spec_fn(int, Seq<char>) -> bool,
) -> bool {
    &&& 0 <= lo
    &&& lo + 2 <= hi <= st.len()
    &&& forall|j: int|
        0 <= j < regs.len() ==> fragment(
            st,
            (#[trigger] regs[j]).0 as int,
            regs[j].1 as int,
            regs[j].2,
            regs[j].3,
            |w: Seq<char>| lang(j, w),
        ) && st[regs[j].3 as int].epsilon@ == seq![(lo + 1) as usize] && st[regs[j].3 as int].transitions@.len() == 0
    &&& forall|j: int| 0 <= j < regs.len() ==> (#[trigger] regs[j]).0 == if j == 0 {
        lo + 2
    } else {
        regs[j - 1].1 as int
    }
    &&& hi == if regs.len() == 0 {
        lo + 2
    } else {
        regs.last().1 as int
    }
    &&& st[lo].epsilon@.len() == regs.len()
    &&& forall|j: int| 0 <= j < regs.len() ==> st[lo].epsilon@[j] == (#[trigger] regs[j]).2
    &&& st[lo].transitions@.len() == 0
    &&& no_edges(st, (lo + 1) as usize)
}

/// Each branch lies inside `lo + 2..hi`.
proof fn lemma_alt_bounds(
    st: Seq<State>,
    lo: int,
    hi: int,
    regs: Seq<(usize, usize, usize, usize)>,
    lang: spec_fn(int, Seq<char>) -> bool,
    j: int,
)
    requires
        alt_ok(st, lo, hi, regs, lang),
        0 <= j < regs.len(),
    ensures
        lo + 2 <= regs[j].0 < regs[j].1 <= hi,
    decreases regs.len() - j,
{
    assert(fragment(st, regs[j].0 as int, regs[j].1 as int, regs[j].2, regs[j].3, |w: Seq<char>| lang(j, w)));
    assert(regs[j].0 < regs[j].1) by {
        reveal(fragment);
    }
    lemma_alt_lower(st, lo, hi, regs, lang, j);
    if j + 1 < regs.len() {
        lemma_alt_bounds(st, lo, hi, regs, lang, j + 1);
        assert(regs[j + 1].0 == regs[j].1);
    }
}

proof fn lemma_alt_lower(
    st: Seq<State>,
    lo: int,
    hi: int,
    regs: Seq<(usize, usize, usize, usize)>,
    lang: spec_fn(int, Seq<char>) -> bool,
    j: int,
)
    requires
        alt_ok(st, lo, hi, regs, lang),
        0 <= j < regs.len(),
    ensures
        lo + 2 <= regs[j].0,
    decreases j,
{
    if j > 0 {
        lemma_alt_lower(st, lo, hi, regs, lang, j - 1);
        assert(fragment(
            st,
            regs[j - 1].0 as int,
            regs[j - 1].1 as int,
            regs[j - 1].2,
            regs[j - 1].3,
            |w: Seq<char>| lang(j - 1, w),
        ));
        assert(regs[j - 1].0 < regs[j - 1].1) by {
            reveal(fragment);
        }
        assert(regs[j].0 == regs[j - 1].1);
    }
}

/// The branch holding a state of `lo + 2..hi`.
proof fn lemma_alt_branch_of(
    st: Seq<State>,
    lo: int,
    hi: int,
    regs: Seq<(usize, usize, usize, usize)>,
    lang: spec_fn(int, Seq<char>) -> bool,
    p: int,
    j: int,
) -> (b: int)
    requires
        alt_ok(st, lo, hi, regs, lang),
        0 <= j < regs.len(),
        regs[j].0 <= p < hi,
    ensures
        0 <= b < regs.len(),
        regs[b].0 <= p < regs[b].1,
    decreases regs.len() - j,
{
    if p < regs[j].1 {
        j
    } else {
        if j + 1 == regs.len() {
            assert(regs.last() == regs[j]);
        }
        assert(regs[j + 1].0 == regs[j].1);
        lemma_alt_branch_of(st, lo, hi, regs, lang, p, j + 1)
    }
}

/// An alternation reads the strings of any of its branches.
pub proof fn lemma_alt(
    st: Seq<State>,
    lo: int,
    hi: int,
    s: usize,
    e: usize,
    regs: Seq<(usize, usize, usize, usize)>,
    lang: spec_fn(int, Seq<char>) -> bool,
)
    requires
        alt_ok(st, lo, hi, regs, lang),
        s == lo,
        e == lo + 1,
    ensures
        fragment(st, lo, hi, s, e, any_lang(regs.len() as int, lang)),
{
    reveal(fragment);
    let l = any_lang(regs.len() as int, lang);
    assert forall|w: Seq<char>| #[trigger] reads(st, lo, hi, s, e, w) == l(w) by {
        if reads(st, lo, hi, s, e, w) {
            let ms = choose|ms: Seq<Move>| #[trigger] walk(st, s, ms, e) && word(ms) == w && within(ms, lo, hi, e);
            lemma_only_eps(st, s, ms, e, st[lo].epsilon@);
            let t = ms[0].2;
            let j = choose|j: int| 0 <= j < st[lo].epsilon@.len() && st[lo].epsilon@[j] == t;
            assert(t == regs[j].2);
            lemma_alt_bounds(st, lo, hi, regs, lang, j);
            let (rlo, rhi, rs, re) = regs[j];
            assert(fragment(st, rlo as int, rhi as int, rs, re, |w: Seq<char>| lang(j, w)));
            let rest = ms.skip(1);
            let i = lemma_first_exit(st, rlo as int, rhi as int, re, rs, rest, e);
            lemma_walk_split(st, rs, rest, e, i);
            let u = word(rest.take(i));
            assert(walk(st, rs, rest.take(i), re));
            assert(reads(st, rlo as int, rhi as int, rs, re, u));
            let r2 = rest.skip(i);
            lemma_only_eps(st, re, r2, e, seq![e]);
            lemma_stuck_at_end(st, r2.skip(1), lo, hi, e, e);
            assert(w =~= u);
            assert(lang(j, w));
        }
        if l(w) {
            let j = choose|j: int| 0 <= j < regs.len() && #[trigger] lang(j, w);
            lemma_alt_bounds(st, lo, hi, regs, lang, j);
            let (rlo, rhi, rs, re) = regs[j];
            assert(fragment(st, rlo as int, rhi as int, rs, re, |w: Seq<char>| lang(j, w)));
            assert(reads(st, rlo as int, rhi as int, rs, re, w));
            let c = choose|ms: Seq<Move>| #[trigger] walk(st, rs, ms, re) && word(ms) == w && within(ms, rlo as int, rhi as int, re);
            lemma_within_widen(c, rlo as int, rhi as int, re, lo, hi, e);
            let m1 = seq![(s, Option::<char>::None, rs)];
            let m2 = seq![(re, Option::<char>::None, e)];
            lemma_eps_move(st, s, rs, j);
            lemma_eps_move(st, re, e, 0);
            lemma_walk_add(st, s, m1, rs, c, re);
            lemma_walk_add(st, s, m1 + c, re, m2, e);
            assert(within(m1, lo, hi, e));
            assert(within(m2, lo, hi, e));
            assert(Seq::<char>::empty() + w + Seq::<char>::empty() =~= w);
            assert(walk(st, s, m1 + c + m2, e));
        }
    }
    assert forall|p: int, k: int| lo <= p < hi && p != e && 0 <= k < st[p].epsilon@.len() implies lo
        <= #[trigger] st[p].epsilon@[k] < hi by {
        if p == lo {
            lemma_alt_bounds(st, lo, hi, regs, lang, k);
            assert(st[p].epsilon@[k] == regs[k].2);
            assert(fragment(st, regs[k].0 as int, regs[k].1 as int, regs[k].2, regs[k].3, |w: Seq<char>| lang(k, w)));
        } else {
            let b = lemma_alt_branch_of(st, lo, hi, regs, lang, p, 0);
            lemma_alt_bounds(st, lo, hi, regs, lang, b);
            assert(fragment(st, regs[b].0 as int, regs[b].1 as int, regs[b].2, regs[b].3, |w: Seq<char>| lang(b, w)));
            if p == regs[b].3 {
                assert(st[p].epsilon@[k] == e);
            } else {
                assert(regs[b].0 <= st[p].epsilon@[k] < regs[b].1);
            }
        }
    }
    assert forall|p: int, k: int| lo <= p < hi && p != e && 0 <= k < st[p].transitions@.len() implies lo
        <= (#[trigger] st[p].transitions@[k]).target < hi by {
        if p != lo {
            let b = lemma_alt_branch_of(st, lo, hi, regs, lang, p, 0);
            lemma_alt_bounds(st, lo, hi, regs, lang, b);
            assert(fragment(st, regs[b].0 as int, regs[b].1 as int, regs[b].2, regs[b].3, |w: Seq<char>| lang(b, w)));
            assert(regs[b].0 <= st[p].transitions@[k].target < regs[b].1);
        }
    }
}

/// A walk moves only from states of the table, and never from a state
/// without edges.
pub proof fn lemma_walk_within_all(st: Seq<State>, p: usize, ms: Seq<Move>, x: usize, e: usize)
    requires
        walk(st, p, ms, x),
        e < st.len(),
        no_edges(st, e),
    ensures
        within(ms, 0, st.len() as int, e),
{
    assert forall|i: int| 0 <= i < ms.len() implies 0 <= (#[trigger] ms[i]).0 < st.len() && ms[i].0 != e by {
        assert(move_ok(st, ms[i]));
        if ms[i].0 == e {
            match ms[i].1 {
                None => {
                    let k = choose|k: int| 0 <= k < st[e as int].epsilon@.len() && st[e as int].epsilon@[k] == ms[i].2;
                },
                Some(c) => {},
            }
        }
    }
}

/// An earlier branch keeps its fragment and its one edge when a later
/// branch is added.
proof fn lemma_alt_keep(
    st0: Seq<State>,
    st: Seq<State>,
    lo: int,
    regs: Seq<(usize, usize, usize, usize)>,
    lang: spec_fn(int, Seq<char>) -> bool,
    j: int,
    f: usize,
)
    requires
        alt_ok(st0, lo, st0.len() as int, regs, lang),
        0 <= j < regs.len(),
        st0.len() <= st.len(),
        f >= st0.len(),
        forall|p: int| 0 <= p < st0.len() && p != lo ==> #[trigger] st[p] == st0[p],
    ensures
        fragment(st, regs[j].0 as int, regs[j].1 as int, regs[j].2, regs[j].3, |w: Seq<char>| lang(j, w)),
        st[regs[j].3 as int].epsilon@ == seq![(lo + 1) as usize],
        st[regs[j].3 as int].transitions@.len() == 0,
{
    reveal(fragment);
    lemma_alt_bounds(st0, lo, st0.len() as int, regs, lang, j);
    assert(fragment(st0, regs[j].0 as int, regs[j].1 as int, regs[j].2, regs[j].3, |w: Seq<char>| lang(j, w)));
    assert forall|p: int| regs[j].0 <= p < regs[j].1 && p != regs[j].3 implies #[trigger] st[p] == st0[p] by {}
    lemma_fragment_agree(st0, st, regs[j].0 as int, regs[j].1 as int, regs[j].2, regs[j].3, |w: Seq<char>| lang(j, w));
    assert(st[regs[j].3 as int] == st0[regs[j].3 as int]);
}

/// The branches, old and new, once one more is added.
proof fn lemma_alt_extend_branches(
    st0: Seq<State>,
    st1: Seq<State>,
    st: Seq<State>,
    lo: int,
    regs: Seq<(usize, usize, usize, usize)>,
    lang: spec_fn(int, Seq<char>) -> bool,
    reg: (usize, usize, usize, usize),
)
    requires
        alt_ok(st0, lo, st0.len() as int, regs, lang),
        st0.len() <= st1.len(),
        st.len() == st1.len(),
        fragment(st1, reg.0 as int, reg.1 as int, reg.2, reg.3, |w: Seq<char>| lang(regs.len() as int, w)),
        reg.0 == st0.len(),
        reg.1 == st1.len(),
        reg.3 >= st0.len(),
        forall|p: int| 0 <= p < st0.len() && p != lo ==> #[trigger] st[p] == st0[p],
        forall|p: int| reg.0 <= p < reg.1 && p != reg.3 ==> #[trigger] st[p] == st1[p],
        st[reg.3 as int].epsilon@ == seq![(lo + 1) as usize],
        st[reg.3 as int].transitions@.len() == 0,
    ensures
        forall|j: int|
            0 <= j < regs.push(reg).len() ==> fragment(
                st,
                (#[trigger] regs.push(reg)[j]).0 as int,
                regs.push(reg)[j].1 as int,
                regs.push(reg)[j].2,
                regs.push(reg)[j].3,
                |w: Seq<char>| lang(j, w),
            ) && st[regs.push(reg)[j].3 as int].epsilon@ == seq![(lo + 1) as usize] && st[regs.push(
                reg,
            )[j].3 as int].transitions@.len() == 0,
{
    let regs2 = regs.push(reg);
    lemma_fragment_agree(st1, st, reg.0 as int, reg.1 as int, reg.2, reg.3, |w: Seq<char>| lang(regs.len() as int, w));
    assert forall|j: int| 0 <= j < regs2.len() implies fragment(
        st,
        (#[trigger] regs2[j]).0 as int,
        regs2[j].1 as int,
        regs2[j].2,
        regs2[j].3,
        |w: Seq<char>| lang(j, w),
    ) && st[regs2[j].3 as int].epsilon@ == seq![(lo + 1) as usize] && st[regs2[j].3 as int].transitions@.len() == 0 by {
        if j < regs.len() {
            assert(regs2[j] == regs[j]);
            lemma_alt_keep(st0, st, lo, regs, lang, j, reg.3);
        } else {
            assert(regs2[j] == reg);
        }
    }
}

/// One more branch, built after the others, whose start the alternation's
/// start and whose end leads to the alternation's end, keeps the
/// alternation in shape.
pub proof fn lemma_alt_extend(
    st0: Seq<State>,
    st1: Seq<State>,
    st2: Seq<State>,
    st: Seq<State>,
    lo: int,
    regs: Seq<(usize, usize, usize, usize)>,
    lang: spec_fn(int, Seq<char>) -> bool,
    reg: (usize, usize, usize, usize),
)
    requires
        alt_ok(st0, lo, st0.len() as int, regs, lang),
        st0.len() <= st1.len(),
        forall|p: int| 0 <= p < st0.len() ==> #[trigger] st1[p] == st0[p],
        fragment(st1, reg.0 as int, reg.1 as int, reg.2, reg.3, |w: Seq<char>| lang(regs.len() as int, w)),
        no_edges(st1, reg.3),
        reg.0 == st0.len(),
        reg.1 == st1.len(),
        st2.len() == st1.len(),
        forall|p: int| 0 <= p < st1.len() && p != lo ==> #[trigger] st2[p] == st1[p],
        st2[lo].epsilon@ == st1[lo].epsilon@.push(reg.2),
        st2[lo].transitions@ == st1[lo].transitions@,
        st.len() == st2.len(),
        forall|p: int| 0 <= p < st2.len() && p != reg.3 ==> #[trigger] st[p] == st2[p],
        st[reg.3 as int].epsilon@ == st2[reg.3 as int].epsilon@.push((lo + 1) as usize),
        st[reg.3 as int].transitions@ == st2[reg.3 as int].transitions@,
    ensures
        alt_ok(st, lo, st.len() as int, regs.push(reg), lang),
{
    let regs2 = regs.push(reg);
    assert(reg.0 <= reg.2 < reg.1 && reg.0 <= reg.3 < reg.1) by {
        reveal(fragment);
    }
    assert forall|p: int| 0 <= p < st0.len() && p != lo implies #[trigger] st[p] == st0[p] by {
        assert(st1[p] == st0[p]);
        assert(st2[p] == st1[p]);
    }
    assert forall|p: int| reg.0 <= p < reg.1 && p != reg.3 implies #[trigger] st[p] == st1[p] by {
        assert(st2[p] == st1[p]);
    }
    assert(st[reg.3 as int].epsilon@ =~= seq![(lo + 1) as usize]);
    lemma_alt_extend_branches(st0, st1, st, lo, regs, lang, reg);
    assert forall|j: int| 0 <= j < regs2.len() implies (#[trigger] regs2[j]).0 == if j == 0 {
        lo + 2
    } else {
        regs2[j - 1].1 as int
    } by {
        if j < regs.len() {
            assert(regs2[j] == regs[j]);
            if j > 0 {
                assert(regs2[j - 1] == regs[j - 1]);
            }
        } else if j > 0 {
            assert(regs2[j - 1] == regs.last());
        }
    }
    assert(st1[lo] == st0[lo]);
    assert(st[lo] == st2[lo]);
    assert forall|j: int| 0 <= j < regs2.len() implies st[lo].epsilon@[j] == (#[trigger] regs2[j]).2 by {
        if j < regs.len() {
            assert(regs2[j] == regs[j]);
        }
    }
    assert(st[lo + 1] == st0[lo + 1]);
    assert(regs2.last() == reg);
}

} // verus!
