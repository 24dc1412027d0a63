//! Cutting the alphabet into ranges on which every set of a list agrees.
use super::{char_from_u32, is_scalar, CharSet, Interval};
use vstd::prelude::*;

verus! {

/// A character set, held directly or by reference.
pub trait CharSetSource {
    spec fn source_set(&self) -> CharSet;

    fn charset(&self) -> (r: &CharSet)
        ensures
            *r == self.source_set(),
    ;
}

impl CharSetSource for CharSet {
    open spec fn source_set(&self) -> CharSet {
        *self
    }

    fn charset(&self) -> (r: &CharSet) {
        self
    }
}

impl<'a> CharSetSource for &'a CharSet {
    open spec fn source_set(&self) -> CharSet {
        **self
    }

    fn charset(&self) -> (r: &CharSet) {
        *self
    }
}

/// The sets that a list of sources stands for.
pub open spec fn source_sets<T: CharSetSource>(s: Seq<T>) -> Seq<CharSet> {
    s.map_values(|x: T| x.source_set())
}

/// `v` starts an interval of one of the sets, or follows the end of one.
pub open spec fn is_boundary(sets: Seq<CharSet>, v: int) -> bool {
    exists|k: int, j: int|
        0 <= k < sets.len() && 0 <= j < sets[k].spec_intervals().len() && (v == (#[trigger] sets[k].spec_intervals()[j]).start
            || v == sets[k].spec_intervals()[j].end + 1)
}

/// One of the sets holds `v`.
pub open spec fn any_has(sets: Seq<CharSet>, v: int) -> bool {
    exists|k: int| 0 <= k < sets.len() && #[trigger] sets[k].has(v)
}

/// Every set holds both `a` and `b` or neither.
pub open spec fn same_membership(sets: Seq<CharSet>, a: int, b: int) -> bool {
    forall|k: int| 0 <= k < sets.len() ==> (#[trigger] sets[k].has(a) <==> sets[k].has(b))
}

/// Every set holds only scalar values.
pub open spec fn sets_scalar(sets: Seq<CharSet>) -> bool {
    forall|k: int, v: int| 0 <= k < sets.len() && #[trigger] sets[k].has(v) ==> is_scalar(v)
}

/// Strictly increasing.
pub open spec fn increasing(s: Seq<u32>) -> bool {
    forall|i: int, j: int| 0 <= i < j < s.len() ==> #[trigger] s[i] < #[trigger] s[j]
}

/// Insert `v` into a strictly increasing list unless it is already there.
fn insert_sorted(out: &mut Vec<u32>, v: u32)
    requires
        increasing(old(out)@),
    ensures
        increasing(final(out)@),
        forall|x: u32| #[trigger] final(out)@.contains(x) <==> (old(out)@.contains(x) || x == v),
{
    let n = out.len();
    let mut pos: usize = 0;
    while pos < n && out[pos] < v
        invariant
            n == out.len(),
            pos <= n,
            forall|i: int| 0 <= i < pos ==> #[trigger] out@[i] < v,
        decreases n - pos,
    {
        pos += 1;
    }
    if pos < n && out[pos] == v {
        return;
    }
    let ghost before = out@;
    out.insert(pos, v);
    proof {
        assert(out@ == before.subrange(0, pos as int).push(v) + before.subrange(pos as int, n as int));
        assert forall|i: int, j: int| 0 <= i < j < out@.len() implies #[trigger] out@[i] < #[trigger] out@[j] by {
            if j < pos {
                assert(out@[i] == before[i] && out@[j] == before[j]);
            } else if j == pos {
                assert(out@[i] == before[i]);
            } else if i < pos {
                assert(out@[i] == before[i] && out@[j] == before[j - 1]);
                assert(before[j - 1] >= before[pos as int]);
            } else if i == pos {
                assert(out@[j] == before[j - 1]);
                assert(before[j - 1] >= before[pos as int]);
            } else {
                assert(out@[i] == before[i - 1] && out@[j] == before[j - 1]);
            }
        }
        assert forall|x: u32| #[trigger] out@.contains(x) <==> (before.contains(x) || x == v) by {
            if out@.contains(x) {
                let i = choose|i: int| 0 <= i < out@.len() && out@[i] == x;
                if i < pos {
                    assert(before[i] == x);
                } else if i > pos {
                    assert(before[i - 1] == x);
                }
            }
            if before.contains(x) {
                let i = choose|i: int| 0 <= i < before.len() && before[i] == x;
                if i < pos {
                    assert(out@[i] == x);
                } else {
                    assert(out@[i + 1] == x);
                }
            }
            if x == v {
                assert(out@[pos as int] == x);
            }
        }
    }
}

/// Every interval start of the sets, and every value just past an interval
/// end, sorted and without repeats.
pub fn alphabet_boundaries<T: CharSetSource>(sets: &[T]) -> (r: Vec<u32>)
    ensures
        increasing(r@),
        forall|v: u32| #[trigger] r@.contains(v) <==> is_boundary(source_sets(sets@), v as int),
        forall|k: int| 0 <= k < sets@.len() ==> (#[trigger] source_sets(sets@)[k]).wf(),
{
    let ghost all = source_sets(sets@);
    let mut out: Vec<u32> = Vec::new();
    let mut k: usize = 0;
    while k < sets.len()
        invariant
            k <= sets@.len(),
            all == source_sets(sets@),
            increasing(out@),
            forall|kk: int| 0 <= kk < k ==> (#[trigger] all[kk]).wf(),
            forall|v: u32| #[trigger] out@.contains(v) <==> exists|kk: int, j: int|
                0 <= kk < k && 0 <= j < all[kk].spec_intervals().len() && (v == (#[trigger] all[kk].spec_intervals()[j]).start
                    || v == all[kk].spec_intervals()[j].end + 1),
        decreases sets@.len() - k,
    {
        let set = sets[k].charset();
        proof {
            use_type_invariant(set);
            assert(*set == all[k as int]);
        }
        let intervals = set.intervals();
        let mut j: usize = 0;
        while j < intervals.len()
            invariant
                k < sets@.len(),
                all == source_sets(sets@),
                *set == all[k as int],
                set.wf(),
                forall|kk: int| 0 <= kk < k ==> (#[trigger] all[kk]).wf(),
                intervals@ == set.spec_intervals(),
                j <= intervals@.len(),
                increasing(out@),
                forall|v: u32| #[trigger] out@.contains(v) <==> ((exists|kk: int, jj: int|
                    0 <= kk < k && 0 <= jj < all[kk].spec_intervals().len() && (v == (#[trigger] all[kk].spec_intervals()[jj]).start
                        || v == all[kk].spec_intervals()[jj].end + 1)) || (exists|jj: int|
                    0 <= jj < j && (v == (#[trigger] intervals@[jj]).start || v == intervals@[jj].end + 1))),
            decreases intervals@.len() - j,
        {
            let interval: Interval = intervals[j];
            proof {
                assert(interval.wf());
            }
            let ghost before = out@;
            insert_sorted(&mut out, interval.start);
            insert_sorted(&mut out, interval.end + 1);
            proof {
                assert forall|v: u32| #[trigger] out@.contains(v) <==> ((exists|kk: int, jj: int|
                    0 <= kk < k && 0 <= jj < all[kk].spec_intervals().len() && (v == (#[trigger] all[kk].spec_intervals()[jj]).start
                        || v == all[kk].spec_intervals()[jj].end + 1)) || (exists|jj: int|
                    0 <= jj < j + 1 && (v == (#[trigger] intervals@[jj]).start || v == intervals@[jj].end + 1))) by {
                    if v == interval.start || v == interval.end + 1 {
                        assert(intervals@[j as int] == interval);
                    }
                    if exists|jj: int| 0 <= jj < j + 1 && (v == (#[trigger] intervals@[jj]).start || v == intervals@[jj].end + 1) {
                        let jj = choose|jj: int| 0 <= jj < j + 1 && (v == (#[trigger] intervals@[jj]).start || v == intervals@[jj].end + 1);
                        if jj < j {
                            assert(before.contains(v));
                        }
                    }
                }
            }
            j += 1;
        }
        proof {
            assert forall|v: u32| #[trigger] out@.contains(v) <==> exists|kk: int, jj: int|
                0 <= kk < k + 1 && 0 <= jj < all[kk].spec_intervals().len() && (v == (#[trigger] all[kk].spec_intervals()[jj]).start
                    || v == all[kk].spec_intervals()[jj].end + 1) by {
                if exists|jj: int| 0 <= jj < j && (v == (#[trigger] intervals@[jj]).start || v == intervals@[jj].end + 1) {
                    let jj = choose|jj: int| 0 <= jj < j && (v == (#[trigger] intervals@[jj]).start || v == intervals@[jj].end + 1);
                    assert(all[k as int].spec_intervals()[jj] == intervals@[jj]);
                }
                if exists|kk: int, jj: int|
                    0 <= kk < k + 1 && 0 <= jj < all[kk].spec_intervals().len() && (v == (#[trigger] all[kk].spec_intervals()[jj]).start
                        || v == all[kk].spec_intervals()[jj].end + 1) {
                    let (kk, jj) = choose|kk: int, jj: int|
                        0 <= kk < k + 1 && 0 <= jj < all[kk].spec_intervals().len() && (v == (#[trigger] all[kk].spec_intervals()[jj]).start
                            || v == all[kk].spec_intervals()[jj].end + 1);
                    if kk == k {
                        assert(intervals@[jj] == all[kk].spec_intervals()[jj]);
                    }
                }
            }
        }
        k += 1;
    }
    out
}

/// Some set of the list holds `ch`.
fn any_contains<T: CharSetSource>(sets: &[T], ch: char) -> (r: bool)
    ensures
        r == any_has(source_sets(sets@), ch as int),
{
    let ghost all = source_sets(sets@);
    let mut k: usize = 0;
    while k < sets.len()
        invariant
            k <= sets@.len(),
            all == source_sets(sets@),
            forall|kk: int| 0 <= kk < k ==> !(#[trigger] all[kk]).has(ch as int),
        decreases sets@.len() - k,
    {
        if sets[k].charset().contains(ch) {
            proof {
                assert(all[k as int].has(ch as int));
            }
            return true;
        }
        k += 1;
    }
    false
}

/// The largest boundary at or below `c`: given one at or below it, the last
/// such index of a strictly increasing list.
proof fn lemma_last_at_or_below(bs: Seq<u32>, c: int, i0: int) -> (i: int)
    requires
        increasing(bs),
        0 <= i0 < bs.len(),
        bs[i0] <= c,
    ensures
        i0 <= i < bs.len(),
        bs[i] <= c,
        forall|j: int| i < j < bs.len() ==> #[trigger] bs[j] > c,
    decreases bs.len() - i0,
{
    if i0 + 1 < bs.len() && bs[i0 + 1] <= c {
        lemma_last_at_or_below(bs, c, i0 + 1)
    } else {
        assert forall|j: int| i0 < j < bs.len() implies #[trigger] bs[j] > c by {
            if j > i0 + 1 {
                assert(bs[i0 + 1] < bs[j]);
            }
        }
        i0
    }
}

/// With no boundary in `(b, c]`, every set agrees on `b` and `c`.
proof fn lemma_no_boundary_between(sets: Seq<CharSet>, b: int, c: int)
    requires
        b <= c,
        forall|k: int| 0 <= k < sets.len() ==> (#[trigger] sets[k]).wf(),
        forall|v: int| b < v <= c ==> !#[trigger] is_boundary(sets, v),
    ensures
        same_membership(sets, c, b),
{
    assert forall|k: int| 0 <= k < sets.len() implies (#[trigger] sets[k].has(c) <==> sets[k].has(b)) by {
        let ivs = sets[k].spec_intervals();
        if sets[k].has(c) {
            let j = choose|j: int| 0 <= j < ivs.len() && (#[trigger] ivs[j]).has(c);
            assert(is_boundary(sets, ivs[j].start as int));
            assert(ivs[j].has(b));
        }
        if sets[k].has(b) {
            let j = choose|j: int| 0 <= j < ivs.len() && (#[trigger] ivs[j]).has(b);
            if c > ivs[j].end {
                assert(is_boundary(sets, ivs[j].end + 1));
            }
            assert(ivs[j].has(c));
        }
    }
}

/// One character per maximal range of the alphabet on which every set
/// agrees and some set holds it: the boundaries that are characters held by
/// a set, in increasing order.
#[verifier::rlimit(80)]
#[verifier::spinoff_prover]
pub fn representative_chars<T: CharSetSource>(sets: &[T]) -> (r: Vec<char>)
    ensures
        forall|i: int, j: int| 0 <= i < j < r@.len() ==> (#[trigger] r@[i] as int) < (#[trigger] r@[j] as int),
        forall|c: char| #[trigger] r@.contains(c) <==> (is_boundary(source_sets(sets@), c as int) && any_has(
            source_sets(sets@),
            c as int,
        )),
        sets_scalar(source_sets(sets@)) ==> forall|c: char| #[trigger] any_has(source_sets(sets@), c as int) ==> exists|i: int|
            0 <= i < r@.len() && same_membership(source_sets(sets@), c as int, #[trigger] r@[i] as int),
{
    let ghost all = source_sets(sets@);
    let boundaries = alphabet_boundaries(sets);
    let mut out: Vec<char> = Vec::new();
    let mut i: usize = 0;
    while i < boundaries.len()
        invariant
            all == source_sets(sets@),
            increasing(boundaries@),
            forall|v: u32| #[trigger] boundaries@.contains(v) <==> is_boundary(all, v as int),
            forall|kk: int| 0 <= kk < sets@.len() ==> (#[trigger] all[kk]).wf(),
            i <= boundaries@.len(),
            forall|a: int, b: int| 0 <= a < b < out@.len() ==> (#[trigger] out@[a] as int) < (#[trigger] out@[b] as int),
            forall|a: int| 0 <= a < out@.len() ==> exists|b: int| 0 <= b < i && (#[trigger] out@[a]) as int == boundaries@[b],
            forall|c: char| #[trigger] out@.contains(c) <==> (exists|b: int| 0 <= b < i && c as int == boundaries@[b]) && any_has(
                all,
                c as int,
            ),
            forall|x: int|
                #![trigger boundaries@[x]]
                0 <= x < i && is_scalar(boundaries@[x] as int) && any_has(all, boundaries@[x] as int) ==> exists|a: int|
                    0 <= a < out@.len() && (#[trigger] out@[a]) as int == boundaries@[x],
        decreases boundaries@.len() - i,
    {
        let b = boundaries[i];
        if let Some(ch) = char_from_u32(b) {
            if any_contains(sets, ch) {
                let ghost before = out@;
                out.push(ch);
                proof {
                    assert forall|a: int, bb: int| 0 <= a < bb < out@.len() implies (#[trigger] out@[a] as int) < (
                    #[trigger] out@[bb] as int) by {
                        if bb == out@.len() - 1 {
                            let x = choose|x: int| 0 <= x < i && (#[trigger] before[a]) as int == boundaries@[x];
                            assert(boundaries@[x] < boundaries@[i as int]);
                        }
                    }
                    assert forall|x: int|
                        #![trigger boundaries@[x]]
                        0 <= x < i + 1 && is_scalar(boundaries@[x] as int) && any_has(all, boundaries@[x] as int) implies exists|a: int|
                            0 <= a < out@.len() && (#[trigger] out@[a]) as int == boundaries@[x] by {
                        if x < i {
                            let a = choose|a: int| 0 <= a < before.len() && (#[trigger] before[a]) as int == boundaries@[x];
                            assert(out@[a] == before[a]);
                        } else {
                            assert(out@[out@.len() - 1] as int == boundaries@[x]);
                        }
                    }
                    assert forall|a: int| 0 <= a < out@.len() implies exists|x: int|
                        0 <= x < i + 1 && (#[trigger] out@[a]) as int == boundaries@[x] by {
                        if a < before.len() {
                            assert(out@[a] == before[a]);
                        } else {
                            assert(out@[a] as int == boundaries@[i as int]);
                        }
                    }
                    assert forall|c: char| #[trigger] out@.contains(c) <==> (exists|x: int| 0 <= x < i + 1 && c as int == boundaries@[x]) && any_has(
                        all,
                        c as int,
                    ) by {
                        if out@.contains(c) {
                            let a = choose|a: int| 0 <= a < out@.len() && out@[a] == c;
                            if a < before.len() {
                                assert(before[a] == c);
                                assert(before.contains(c));
                            }
                        }
                        if (exists|x: int| 0 <= x < i + 1 && c as int == boundaries@[x]) && any_has(all, c as int) {
                            let x = choose|x: int| 0 <= x < i + 1 && c as int == boundaries@[x];
                            if x < i {
                                assert(before.contains(c));
                                let a = choose|a: int| 0 <= a < before.len() && before[a] == c;
                                assert(out@[a] == c);
                            } else {
                                assert(out@[out@.len() - 1] == c);
                            }
                        }
                    }
                }
            } else {
                proof {
                    assert forall|c: char| #[trigger] out@.contains(c) <==> (exists|x: int| 0 <= x < i + 1 && c as int == boundaries@[x]) && any_has(
                        all,
                        c as int,
                    ) by {
                        if (exists|x: int| 0 <= x < i + 1 && c as int == boundaries@[x]) && any_has(all, c as int) {
                            let x = choose|x: int| 0 <= x < i + 1 && c as int == boundaries@[x];
                            if x == i {
                                assert(c == ch);
                            }
                        }
                    }
                }
            }
        } else {
            proof {
                assert forall|c: char| #[trigger] out@.contains(c) <==> (exists|x: int| 0 <= x < i + 1 && c as int == boundaries@[x]) && any_has(
                    all,
                    c as int,
                ) by {
                    if exists|x: int| 0 <= x < i + 1 && c as int == boundaries@[x] {
                        let x = choose|x: int| 0 <= x < i + 1 && c as int == boundaries@[x];
                        if x == i {
                            vstd::utf8::char_is_scalar(c);
                            assert(is_scalar(c as int));
                        }
                    }
                }
            }
        }
        i += 1;
    }
    proof {
        assert forall|c: char| #[trigger] out@.contains(c) <==> (is_boundary(all, c as int) && any_has(all, c as int)) by {
            if is_boundary(all, c as int) {
                assert(boundaries@.contains(c as u32));
                let x = choose|x: int| 0 <= x < boundaries@.len() && boundaries@[x] == c as u32;
                assert(c as int == boundaries@[x]);
            }
            if exists|x: int| 0 <= x < boundaries@.len() && c as int == boundaries@[x] {
                let x = choose|x: int| 0 <= x < boundaries@.len() && c as int == boundaries@[x];
                assert(boundaries@.contains(boundaries@[x]));
            }
        }
        if sets_scalar(all) {
            assert forall|c: char| #[trigger] any_has(all, c as int) implies exists|i: int|
                0 <= i < out@.len() && same_membership(all, c as int, #[trigger] out@[i] as int) by {
                lemma_representative_exists(all, boundaries@, out@, c);
            }
        }
    }
    out
}

proof fn lemma_representative_exists(all: Seq<CharSet>, bs: Seq<u32>, out: Seq<char>, c: char)
    requires
        sets_scalar(all),
        forall|k: int| 0 <= k < all.len() ==> (#[trigger] all[k]).wf(),
        any_has(all, c as int),
        increasing(bs),
        forall|v: u32| #[trigger] bs.contains(v) <==> is_boundary(all, v as int),
        forall|x: int|
            #![trigger bs[x]]
            0 <= x < bs.len() && is_scalar(bs[x] as int) && any_has(all, bs[x] as int) ==> exists|a: int|
                0 <= a < out.len() && (#[trigger] out[a]) as int == bs[x],
    ensures
        exists|i: int| 0 <= i < out.len() && same_membership(all, c as int, #[trigger] out[i] as int),
{
    let k = choose|k: int| 0 <= k < all.len() && #[trigger] all[k].has(c as int);
    let ivs = all[k].spec_intervals();
    let j = choose|j: int| 0 <= j < ivs.len() && (#[trigger] ivs[j]).has(c as int);
    let s = ivs[j].start;
    assert(is_boundary(all, s as int));
    assert(bs.contains(s));
    let i0 = choose|i0: int| 0 <= i0 < bs.len() && bs[i0] == s;
    let i = lemma_last_at_or_below(bs, c as int, i0);
    let b = bs[i];
    assert forall|v: int| b < v <= c as int implies !#[trigger] is_boundary(all, v) by {
        if is_boundary(all, v) {
            assert(bs.contains(v as u32));
            let x = choose|x: int| 0 <= x < bs.len() && bs[x] == v as u32;
            if x <= i {
                if x < i {
                    assert(bs[x] < bs[i]);
                }
            }
        }
    }
    lemma_no_boundary_between(all, b as int, c as int);
    assert(all[k].has(b as int));
    assert(is_scalar(b as int));
    assert(any_has(all, bs[i] as int));
    let idx = choose|idx: int| 0 <= idx < out.len() && (#[trigger] out[idx]) as int == bs[i];
    assert(same_membership(all, c as int, out[idx] as int));
}


/// Every value of `lo..=hi` is treated by every set as `lo` is.
pub open spec fn uniform_range(sets: Seq<CharSet>, lo: int, hi: int) -> bool {
    forall|v: int| lo <= v <= hi ==> #[trigger] same_membership(sets, v, lo)
}

/// The boundaries of `sets`, strictly increasing.
spec fn boundary_list(sets: Seq<CharSet>, bs: Seq<u32>) -> bool {
    &&& increasing(bs)
    &&& forall|v: u32| #[trigger] bs.contains(v) <==> is_boundary(sets, v as int)
    &&& forall|k: int| 0 <= k < sets.len() ==> (#[trigger] sets[k]).wf()
}

/// Between two neighbouring boundaries every set agrees.
proof fn lemma_window_uniform(all: Seq<CharSet>, bs: Seq<u32>, i: int)
    requires
        boundary_list(all, bs),
        0 <= i < bs.len() - 1,
    ensures
        uniform_range(all, bs[i] as int, bs[i + 1] - 1),
{
    assert forall|v: int| bs[i] <= v <= bs[i + 1] - 1 implies #[trigger] same_membership(all, v, bs[i] as int) by {
        assert forall|w: int| bs[i] < w <= v implies !#[trigger] is_boundary(all, w) by {
            if is_boundary(all, w) {
                assert(bs.contains(w as u32));
                let x = choose|x: int| 0 <= x < bs.len() && bs[x] == w as u32;
                if x < i {
                    assert(bs[x] < bs[i]);
                } else if x > i + 1 {
                    assert(bs[i + 1] < bs[x]);
                }
            }
        }
        lemma_no_boundary_between(all, bs[i] as int, v);
    }
}

/// A value some set holds lies in a window whose start some set holds too.
proof fn lemma_window_of(all: Seq<CharSet>, bs: Seq<u32>, v: int) -> (x: int)
    requires
        boundary_list(all, bs),
        any_has(all, v),
    ensures
        0 <= x < bs.len() - 1,
        bs[x] <= v < bs[x + 1],
        any_has(all, bs[x] as int),
{
    let k = choose|k: int| 0 <= k < all.len() && #[trigger] all[k].has(v);
    let ivs = all[k].spec_intervals();
    let j = choose|j: int| 0 <= j < ivs.len() && (#[trigger] ivs[j]).has(v);
    assert(is_boundary(all, ivs[j].start as int));
    assert(bs.contains(ivs[j].start));
    let i0 = choose|i0: int| 0 <= i0 < bs.len() && bs[i0] == ivs[j].start;
    let x = lemma_last_at_or_below(bs, v, i0);
    assert(is_boundary(all, ivs[j].end + 1));
    assert(bs.contains((ivs[j].end + 1) as u32));
    let y = choose|y: int| 0 <= y < bs.len() && bs[y] == (ivs[j].end + 1) as u32;
    assert(y > x);
    assert(bs[x + 1] > v);
    lemma_window_uniform(all, bs, x);
    assert(same_membership(all, v, bs[x] as int));
    assert(all[k].has(bs[x] as int));
    x
}

/// Membership changes at a boundary: some set holds exactly one of `b - 1`
/// and `b`.
proof fn lemma_boundary_changes(all: Seq<CharSet>, b: int)
    requires
        is_boundary(all, b),
        forall|k: int| 0 <= k < all.len() ==> (#[trigger] all[k]).wf(),
    ensures
        !same_membership(all, b - 1, b),
{
    let (k, j) = choose|k: int, j: int|
        0 <= k < all.len() && 0 <= j < all[k].spec_intervals().len() && (b == (#[trigger] all[k].spec_intervals()[j]).start
            || b == all[k].spec_intervals()[j].end + 1);
    let ivs = all[k].spec_intervals();
    assert(all[k].wf());
    let iv = ivs[j];
    assert(iv.wf());
    if b == iv.start {
        assert(iv.has(b));
        assert(all[k].has(b));
        if all[k].has(b - 1) {
            let m = choose|m: int| 0 <= m < ivs.len() && (#[trigger] ivs[m]).has(b - 1);
            if m < j {
                assert(ivs[m].end + 1 < ivs[j].start);
            } else if m > j {
                assert(ivs[j].end + 1 < ivs[m].start);
            }
        }
    } else {
        assert(iv.has(b - 1));
        assert(all[k].has(b - 1));
        if all[k].has(b) {
            let m = choose|m: int| 0 <= m < ivs.len() && (#[trigger] ivs[m]).has(b);
            if m < j {
                assert(ivs[m].end + 1 < ivs[j].start);
            } else if m > j {
                assert(ivs[j].end + 1 < ivs[m].start);
            }
        }
    }
}

/// The maximal ranges of the alphabet on which every set agrees and which
/// some set holds, each as `(start, end, representative)` with the
/// representative being the character `start`, in increasing order.
pub fn alphabet_partition<T: CharSetSource>(sets: &[T]) -> (r: Vec<(u32, u32, char)>)
    ensures
        forall|i: int|
            0 <= i < r@.len() ==> {
                let (lo, hi, rep) = #[trigger] r@[i];
                &&& rep as int == lo as int
                &&& lo <= hi
                &&& any_has(source_sets(sets@), lo as int)
                &&& uniform_range(source_sets(sets@), lo as int, hi as int)
            },
        forall|i: int, j: int| 0 <= i < j < r@.len() ==> (#[trigger] r@[i]).1 < (#[trigger] r@[j]).0,
        sets_scalar(source_sets(sets@)) ==> forall|v: int|
            #[trigger] any_has(source_sets(sets@), v) ==> exists|i: int| 0 <= i < r@.len() && (#[trigger] r@[i]).0 <= v <= r@[i].1,
        forall|i: int|
            0 <= i < r@.len() ==> !same_membership(source_sets(sets@), (#[trigger] r@[i]).0 as int - 1, r@[i].0 as int)
                && !same_membership(source_sets(sets@), r@[i].1 as int, r@[i].1 as int + 1),
{
    let ghost all = source_sets(sets@);
    let boundaries = alphabet_boundaries(sets);
    let mut out: Vec<(u32, u32, char)> = Vec::new();
    if boundaries.len() == 0 {
        proof {
            assert forall|v: int| #[trigger] any_has(all, v) implies exists|i: int| 0 <= i < out@.len() && (#[trigger] out@[i]).0 <= v <= out@[i].1 by {
                let x = lemma_window_of(all, boundaries@, v);
            }
        }
        return out;
    }
    let last = boundaries.len() - 1;
    let mut i: usize = 0;
    while i < last
        invariant
            all == source_sets(sets@),
            boundary_list(all, boundaries@),
            last == boundaries@.len() - 1,
            i <= last,
            forall|a: int|
                0 <= a < out@.len() ==> {
                    let (lo, hi, rep) = #[trigger] out@[a];
                    &&& rep as int == lo as int
                    &&& lo <= hi
                    &&& any_has(all, lo as int)
                    &&& uniform_range(all, lo as int, hi as int)
                },
            forall|a: int, b: int| 0 <= a < b < out@.len() ==> (#[trigger] out@[a]).1 < (#[trigger] out@[b]).0,
            forall|a: int| 0 <= a < out@.len() ==> is_boundary(all, (#[trigger] out@[a]).0 as int) && is_boundary(all, out@[a].1 as int + 1),
            out@.len() > 0 ==> out@.last().1 < boundaries@[i as int],
            forall|x: int|
                #![trigger boundaries@[x]]
                0 <= x < i && is_scalar(boundaries@[x] as int) && any_has(all, boundaries@[x] as int) ==> exists|a: int|
                    0 <= a < out@.len() && (#[trigger] out@[a]).0 == boundaries@[x] && out@[a].1 + 1 == boundaries@[x + 1],
        decreases last - i,
    {
        let start = boundaries[i];
        proof {
            assert(boundaries@[i as int] < boundaries@[i + 1]);
            lemma_window_uniform(all, boundaries@, i as int);
        }
        let end = boundaries[i + 1] - 1;
        if let Some(rep) = char_from_u32(start) {
            if any_contains(sets, rep) {
                let ghost before = out@;
                out.push((start, end, rep));
                proof {
                    assert forall|a: int|
                        0 <= a < out@.len() implies {
                            let (lo, hi, rr) = #[trigger] out@[a];
                            &&& rr as int == lo as int
                            &&& lo <= hi
                            &&& any_has(all, lo as int)
                            &&& uniform_range(all, lo as int, hi as int)
                        } by {
                        if a < before.len() {
                            assert(out@[a] == before[a]);
                        }
                    }
                    assert forall|a: int, b: int| 0 <= a < b < out@.len() implies (#[trigger] out@[a]).1 < (#[trigger] out@[b]).0 by {
                        if b == out@.len() - 1 {
                            if a < before.len() - 1 {
                                assert(before[a].1 < before[before.len() - 1].0);
                            }
                        } else {
                            assert(out@[a] == before[a] && out@[b] == before[b]);
                        }
                    }
                    assert forall|x: int|
                        #![trigger boundaries@[x]]
                        0 <= x < i + 1 && is_scalar(boundaries@[x] as int) && any_has(all, boundaries@[x] as int) implies exists|a: int|
                            0 <= a < out@.len() && (#[trigger] out@[a]).0 == boundaries@[x] && out@[a].1 + 1 == boundaries@[x + 1] by {
                        if x < i {
                            let a = choose|a: int|
                                0 <= a < before.len() && (#[trigger] before[a]).0 == boundaries@[x] && before[a].1 + 1 == boundaries@[x + 1];
                            assert(out@[a] == before[a]);
                        } else {
                            assert(out@[out@.len() - 1].0 == boundaries@[x]);
                        }
                    }
                    assert(boundaries@[i + 1] < boundaries@[i + 1] + 1);
                    assert(boundaries@.contains(boundaries@[i as int]));
                    assert(boundaries@.contains(boundaries@[i + 1]));
                    assert forall|a: int| 0 <= a < out@.len() implies is_boundary(all, (#[trigger] out@[a]).0 as int) && is_boundary(
                        all,
                        out@[a].1 as int + 1,
                    ) by {
                        if a < before.len() {
                            assert(out@[a] == before[a]);
                        }
                    }
                }
            } else {
                proof {
                    assert(boundaries@[i as int] < boundaries@[i + 1]);
                }
            }
        } else {
            proof {
                assert(boundaries@[i as int] < boundaries@[i + 1]);
            }
        }
        i += 1;
    }
    proof {
        if sets_scalar(all) {
            assert forall|v: int| #[trigger] any_has(all, v) implies exists|i: int| 0 <= i < out@.len() && (#[trigger] out@[i]).0 <= v <= out@[i].1 by {
                let x = lemma_window_of(all, boundaries@, v);
                let k = choose|k: int| 0 <= k < all.len() && #[trigger] all[k].has(boundaries@[x] as int);
                assert(is_scalar(boundaries@[x] as int));
                let a = choose|a: int| 0 <= a < out@.len() && (#[trigger] out@[a]).0 == boundaries@[x] && out@[a].1 + 1 == boundaries@[x + 1];
            }
        }
        assert forall|a: int| 0 <= a < out@.len() implies !same_membership(all, (#[trigger] out@[a]).0 as int - 1, out@[a].0 as int)
            && !same_membership(all, out@[a].1 as int, out@[a].1 as int + 1) by {
            lemma_boundary_changes(all, out@[a].0 as int);
            lemma_boundary_changes(all, out@[a].1 as int + 1);
        }
    }
    out
}

} // verus!
