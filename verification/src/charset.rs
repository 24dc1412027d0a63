use crate::config::{alphabet_has, Alphabet};
use vstd::prelude::*;

pub mod label;
pub mod partition;

pub use partition::{alphabet_boundaries, alphabet_partition, representative_chars, CharSetSource};

verus! {

/// Largest Unicode scalar value.
pub const MAX_SCALAR: u32 = 0x10ffff;

/// An inclusive range `start..=end` of scalar values.
#[derive(Clone, Copy, Debug, Eq, PartialEq, Hash)]
pub struct Interval {
    pub start: u32,
    pub end: u32,
}

impl Interval {
    /// The interval holds `v`.
    pub open spec fn has(self, v: int) -> bool {
        self.start <= v <= self.end
    }

    /// A non-empty interval inside the scalar range.
    pub open spec fn wf(self) -> bool {
        self.start <= self.end <= MAX_SCALAR
    }

    pub fn new(start: u32, end: u32) -> (r: Self)
        requires
            start <= end,
        ensures
            r.start == start,
            r.end == end,
    {
        Self { start, end }
    }

    pub fn contains(self, value: u32) -> (r: bool)
        ensures
            r == self.has(value as int),
    {
        self.start <= value && value <= self.end
    }
}

/// Some interval of `s` holds `v`.
pub open spec fn in_ivs(s: Seq<Interval>, v: int) -> bool {
    exists|i: int| 0 <= i < s.len() && (#[trigger] s[i]).has(v)
}

/// Every interval is well formed, and the list is sorted with a gap of at
/// least one value between neighbours (the canonical form of a set).
pub open spec fn ivs_wf(s: Seq<Interval>) -> bool {
    &&& forall|i: int| 0 <= i < s.len() ==> (#[trigger] s[i]).wf()
    &&& forall|i: int, j: int| 0 <= i < j < s.len() ==> #[trigger] s[i].end + 1 < #[trigger] s[j].start
}

/// Every interval of the list is well formed.
pub open spec fn ivs_each_wf(s: Seq<Interval>) -> bool {
    forall|i: int| 0 <= i < s.len() ==> (#[trigger] s[i]).wf()
}

/// A set of scalar values, kept as a canonical list of intervals.
#[derive(Debug, Eq, PartialEq, Hash)]
pub struct CharSet {
    intervals: Vec<Interval>,
}

impl View for CharSet {
    type V = Set<int>;

    closed spec fn view(&self) -> Set<int> {
        Set::new(|v: int| in_ivs(self.intervals@, v))
    }
}

impl Clone for CharSet {
    fn clone(&self) -> (r: Self)
        ensures
            r.spec_intervals() == self.spec_intervals(),
            r.wf(),
    {
        proof {
            use_type_invariant(self);
        }
        let mut intervals: Vec<Interval> = Vec::with_capacity(self.intervals.len());
        let mut k: usize = 0;
        while k < self.intervals.len()
            invariant
                k <= self.intervals.len(),
                intervals@ == self.intervals@.subrange(0, k as int),
            decreases self.intervals.len() - k,
        {
            intervals.push(self.intervals[k]);
            proof {
                assert(intervals@ =~= self.intervals@.subrange(0, k + 1));
            }
            k += 1;
        }
        proof {
            assert(intervals@ =~= self.intervals@);
        }
        Self { intervals }
    }
}

impl CharSet {
    /// The canonical interval list of the set.
    pub closed spec fn spec_intervals(&self) -> Seq<Interval> {
        self.intervals@
    }

    /// The set holds `v`.
    pub open spec fn has(&self, v: int) -> bool {
        in_ivs(self.spec_intervals(), v)
    }

    /// The interval list is canonical.
    pub open spec fn wf(&self) -> bool {
        ivs_wf(self.spec_intervals())
    }

    #[verifier::type_invariant]
    closed spec fn inv(&self) -> bool {
        ivs_wf(self.intervals@)
    }

    pub proof fn lemma_view(&self)
        ensures
            forall|v: int| #[trigger] self@.contains(v) == self.has(v),
    {
    }

    fn from_vec(intervals: Vec<Interval>) -> (r: Self)
        requires
            ivs_wf(intervals@),
        ensures
            r.spec_intervals() == intervals@,
            r.wf(),
    {
        Self { intervals }
    }

    pub fn empty() -> (r: Self)
        ensures
            r.wf(),
            forall|v: int| !r.has(v),
            r.spec_intervals().len() == 0,
    {
        Self { intervals: Vec::new() }
    }

    pub fn singleton(ch: char) -> (r: Self)
        ensures
            r.wf(),
            forall|v: int| r.has(v) <==> v == ch as int,
            r.spec_intervals() == seq![Interval { start: ch as u32, end: ch as u32 }],
    {
        let value = ch as u32;
        let mut intervals = Vec::new();
        intervals.push(Interval::new(value, value));
        proof {
            assert(intervals@[0].has(ch as int));
        }
        Self { intervals }
    }

    pub fn from_interval(start: char, end: char) -> (r: Self)
        requires
            start <= end,
        ensures
            r.wf(),
            forall|v: int| r.has(v) <==> start as int <= v <= end as int,
    {
        let mut intervals = Vec::new();
        intervals.push(Interval::new(start as u32, end as u32));
        proof {
            assert forall|v: int| in_ivs(intervals@, v) <==> start as int <= v <= end as int by {
                if start as int <= v <= end as int {
                    assert(intervals@[0].has(v));
                }
            }
        }
        Self::from_u32_intervals(intervals)
    }

    /// Sort the interval list by `(start, end)`.
    fn sort_intervals(input: Vec<Interval>) -> (r: Vec<Interval>)
        ensures
            r.len() == input.len(),
            forall|x: Interval| r@.contains(x) <==> input@.contains(x),
            forall|i: int, j: int| 0 <= i < j < r.len() ==> #[trigger] r@[i].start <= #[trigger] r@[j].start,
    {
        let mut sorted: Vec<Interval> = Vec::new();
        let mut k: usize = 0;
        while k < input.len()
            invariant
                k <= input.len(),
                sorted.len() == k,
                forall|x: Interval| sorted@.contains(x) <==> input@.subrange(0, k as int).contains(x),
                forall|i: int, j: int| 0 <= i < j < sorted.len() ==> #[trigger] sorted@[i].start <= #[trigger] sorted@[j].start,
            decreases input.len() - k,
        {
            let item = input[k];
            let mut pos: usize = 0;
            while pos < sorted.len() && (sorted[pos].start < item.start || (sorted[pos].start
                == item.start && sorted[pos].end <= item.end))
                invariant
                    pos <= sorted.len(),
                    forall|i: int| 0 <= i < pos ==> #[trigger] sorted@[i].start <= item.start,
                decreases sorted.len() - pos,
            {
                pos += 1;
            }
            let ghost before = sorted@;
            proof {
                if pos < sorted.len() {
                    assert(sorted@[pos as int].start >= item.start);
                }
            }
            sorted.insert(pos, item);
            proof {
                before.insert_ensures(pos as int, item);
                assert(input@.subrange(0, k + 1) =~= input@.subrange(0, k as int).push(item));
                assert forall|x: Interval| sorted@.contains(x) <==> input@.subrange(0, k + 1).contains(x) by {
                    if sorted@.contains(x) {
                        let i = choose|i: int| 0 <= i < sorted@.len() && sorted@[i] == x;
                        let sub = input@.subrange(0, k + 1);
                        if i < pos {
                            assert(before[i] == x);
                            assert(before.contains(x));
                            let j = choose|j: int| 0 <= j < k && input@.subrange(0, k as int)[j] == x;
                            assert(sub[j] == x);
                        } else if i > pos {
                            assert(before[i - 1] == x);
                            assert(before.contains(x));
                            let j = choose|j: int| 0 <= j < k && input@.subrange(0, k as int)[j] == x;
                            assert(sub[j] == x);
                        } else {
                            assert(sub[k as int] == x);
                        }
                    }
                    if input@.subrange(0, k + 1).contains(x) {
                        if x == item {
                            assert(sorted@[pos as int] == x);
                        } else {
                            assert(input@.subrange(0, k as int).contains(x));
                            assert(before.contains(x));
                            let i = choose|i: int| 0 <= i < before.len() && before[i] == x;
                            if i < pos {
                                assert(sorted@[i] == x);
                            } else {
                                assert(sorted@[i + 1] == x);
                            }
                        }
                    }
                }
                assert forall|i: int, j: int| 0 <= i < j < sorted.len() implies #[trigger] sorted@[i].start
                    <= #[trigger] sorted@[j].start by {
                    if j < pos {
                        assert(before[i].start <= before[j].start);
                    } else if j == pos {
                        assert(before[i].start <= item.start);
                    } else if i < pos {
                        assert(before[i].start <= before[j - 1].start);
                    } else if i == pos {
                        if j - 1 < before.len() && pos < before.len() {
                            assert(before[pos as int].start <= before[j - 1].start);
                        }
                    } else {
                        assert(before[i - 1].start <= before[j - 1].start);
                    }
                }
            }
            k += 1;
        }
        proof {
            assert(input@.subrange(0, input.len() as int) =~= input@);
        }
        sorted
    }

    /// Build a canonical set from raw intervals in any order.
    pub fn from_u32_intervals(intervals: Vec<Interval>) -> (r: Self)
        requires
            ivs_each_wf(intervals@),
        ensures
            r.wf(),
            forall|v: int| r.has(v) <==> in_ivs(intervals@, v),
    {
        let ghost given = intervals@;
        let sorted = Self::sort_intervals(intervals);
        let mut merged: Vec<Interval> = Vec::with_capacity(sorted.len());
        let mut k: usize = 0;
        proof {
            assert forall|i: int| 0 <= i < sorted.len() implies (#[trigger] sorted@[i]).wf() by {
                assert(sorted@.contains(sorted@[i]));
                let j = choose|j: int| 0 <= j < given.len() && given[j] == sorted@[i];
                assert(given[j].wf());
            }
        }
        while k < sorted.len()
            invariant
                k <= sorted.len(),
                ivs_wf(merged@),
                ivs_each_wf(sorted@),
                forall|i: int, j: int| 0 <= i < j < sorted.len() ==> #[trigger] sorted@[i].start <= #[trigger] sorted@[j].start,
                merged.len() > 0 ==> k > 0 && merged@.last().start <= sorted@[k - 1].start,
                forall|v: int| #[trigger] in_ivs(merged@, v) <==> in_ivs(sorted@.subrange(0, k as int), v),
            decreases sorted.len() - k,
        {
            let item = sorted[k];
            let ghost before = merged@;
            Self::push_merged(&mut merged, item);
            proof {
                let sub = sorted@.subrange(0, k + 1);
                assert forall|v: int| in_ivs(merged@, v) <==> in_ivs(sub, v) by {
                    if in_ivs(sub, v) {
                        let i = choose|i: int| 0 <= i < sub.len() && (#[trigger] sub[i]).has(v);
                        if i < k {
                            assert(sorted@.subrange(0, k as int)[i].has(v));
                        }
                    }
                    if in_ivs(sorted@.subrange(0, k as int), v) {
                        let i = choose|i: int| 0 <= i < k && (#[trigger] sorted@.subrange(0, k as int)[i]).has(v);
                        assert(sub[i].has(v));
                    }
                    if item.has(v) {
                        assert(sub[k as int].has(v));
                    }
                }
            }
            k += 1;
        }
        proof {
            assert(sorted@.subrange(0, sorted.len() as int) =~= sorted@);
            assert forall|v: int| in_ivs(sorted@, v) <==> in_ivs(given, v) by {
                if in_ivs(sorted@, v) {
                    let i = choose|i: int| 0 <= i < sorted@.len() && (#[trigger] sorted@[i]).has(v);
                    assert(sorted@.contains(sorted@[i]));
                    let j = choose|j: int| 0 <= j < given.len() && given[j] == sorted@[i];
                    assert(given[j].has(v));
                }
                if in_ivs(given, v) {
                    let i = choose|i: int| 0 <= i < given.len() && (#[trigger] given[i]).has(v);
                    assert(given.contains(given[i]));
                    let j = choose|j: int| 0 <= j < sorted@.len() && sorted@[j] == given[i];
                    assert(sorted@[j].has(v));
                }
            }
        }
        Self { intervals: merged }
    }

    pub fn ascii_digits() -> (r: Self)
        ensures
            r.wf(),
            forall|v: int| r.has(v) <==> '0' as int <= v <= '9' as int,
    {
        Self::from_interval('0', '9')
    }

    pub fn ascii_word() -> (r: Self)
        ensures
            r.wf(),
            forall|v: int| r.has(v) <==> ('0' as int <= v <= '9' as int || 'A' as int <= v <= 'Z' as int
                || v == '_' as int || 'a' as int <= v <= 'z' as int),
    {
        let mut raw = Vec::new();
        raw.push(Interval::new('0' as u32, '9' as u32));
        raw.push(Interval::new('A' as u32, 'Z' as u32));
        raw.push(Interval::new('_' as u32, '_' as u32));
        raw.push(Interval::new('a' as u32, 'z' as u32));
        proof {
            assert forall|v: int| in_ivs(raw@, v) <==> ('0' as int <= v <= '9' as int || 'A' as int <= v
                <= 'Z' as int || v == '_' as int || 'a' as int <= v <= 'z' as int) by {
                if '0' as int <= v <= '9' as int {
                    assert(raw@[0].has(v));
                }
                if 'A' as int <= v <= 'Z' as int {
                    assert(raw@[1].has(v));
                }
                if v == '_' as int {
                    assert(raw@[2].has(v));
                }
                if 'a' as int <= v <= 'z' as int {
                    assert(raw@[3].has(v));
                }
            }
        }
        Self::from_u32_intervals(raw)
    }

    pub fn ascii_space() -> (r: Self)
        ensures
            r.wf(),
            forall|v: int| r.has(v) <==> ('\t' as int <= v <= '\r' as int || v == ' ' as int),
    {
        let mut raw = Vec::new();
        raw.push(Interval::new('\t' as u32, '\r' as u32));
        raw.push(Interval::new(' ' as u32, ' ' as u32));
        proof {
            assert forall|v: int| in_ivs(raw@, v) <==> ('\t' as int <= v <= '\r' as int || v == ' ' as int) by {
                if '\t' as int <= v <= '\r' as int {
                    assert(raw@[0].has(v));
                }
                if v == ' ' as int {
                    assert(raw@[1].has(v));
                }
            }
        }
        Self::from_u32_intervals(raw)
    }

    /// The whole alphabet, without newline unless `dot_matches_newline`.
    pub fn any(alphabet: Alphabet, dot_matches_newline: bool) -> (r: Self)
        ensures
            r.wf(),
            forall|v: int| r.has(v) <==> (alphabet_has(alphabet, v) && (dot_matches_newline || v != '\n' as int)),
    {
        let mut result = Self::from_u32_intervals(alphabet.scalar_intervals());
        if !dot_matches_newline {
            result = result.subtract(&Self::singleton('\n'));
        }
        result
    }

    pub fn intervals(&self) -> (r: &[Interval])
        ensures
            r@ == self.spec_intervals(),
    {
        self.intervals.as_slice()
    }

    pub fn contains(&self, ch: char) -> (r: bool)
        ensures
            r == self.has(ch as int),
    {
        proof {
            use_type_invariant(self);
        }
        let value = ch as u32;
        let n = self.intervals.len();
        let mut lo: usize = 0;
        let mut hi: usize = n;
        while lo < hi
            invariant
                lo <= hi <= n,
                n == self.intervals.len(),
                ivs_wf(self.intervals@),
                forall|i: int| 0 <= i < lo ==> (#[trigger] self.intervals@[i]).start <= value,
                forall|i: int| hi <= i < n ==> (#[trigger] self.intervals@[i]).start > value,
            decreases hi - lo,
        {
            let mid = lo + (hi - lo) / 2;
            if self.intervals[mid].start <= value {
                proof {
                    assert forall|i: int| 0 <= i <= mid implies (#[trigger] self.intervals@[i]).start <= value by {
                        if i < mid {
                            assert(self.intervals@[i].end + 1 < self.intervals@[mid as int].start);
                        }
                    }
                }
                lo = mid + 1;
            } else {
                proof {
                    assert forall|i: int| mid <= i < n implies (#[trigger] self.intervals@[i]).start > value by {
                        if i > mid {
                            assert(self.intervals@[mid as int].end + 1 < self.intervals@[i].start);
                        }
                    }
                }
                hi = mid;
            }
        }
        let insertion = lo;
        let found = insertion > 0 && self.intervals[insertion - 1].end >= value;
        proof {
            if found {
                assert(self.intervals@[insertion - 1].has(value as int));
            } else {
                assert forall|i: int| 0 <= i < n implies !(#[trigger] self.intervals@[i]).has(value as int) by {
                    if i < insertion - 1 {
                        assert(self.intervals@[i].end + 1 < self.intervals@[insertion - 1].start);
                    }
                }
            }
        }
        found
    }

    pub fn union(&self, other: &Self) -> (r: Self)
        ensures
            r.wf(),
            forall|v: int| r.has(v) <==> (self.has(v) || other.has(v)),
    {
        proof {
            use_type_invariant(self);
            use_type_invariant(other);
        }
        let a = &self.intervals;
        let b = &other.intervals;
        let mut merged: Vec<Interval> = Vec::new();
        proof {
            assert(a@.subrange(0, a.len() as int) =~= a@);
            assert(b@.subrange(0, b.len() as int) =~= b@);
        }
        let mut left: usize = 0;
        let mut right: usize = 0;
        while left < a.len() || right < b.len()
            invariant
                left <= a.len(),
                right <= b.len(),
                ivs_wf(a@),
                ivs_wf(b@),
                ivs_wf(merged@),
                merged.len() > 0 ==> (left < a.len() ==> merged@.last().start <= a@[left as int].start),
                merged.len() > 0 ==> (right < b.len() ==> merged@.last().start <= b@[right as int].start),
                forall|v: int| (in_ivs(merged@, v) || in_ivs(a@.subrange(left as int, a.len() as int), v)
                    || in_ivs(b@.subrange(right as int, b.len() as int), v)) <==> (in_ivs(a@, v) || in_ivs(b@, v)),
            decreases a.len() + b.len() - left - right,
        {
            let ghost old_asub = a@.subrange(left as int, a.len() as int);
            let ghost old_bsub = b@.subrange(right as int, b.len() as int);
            let take_left = right == b.len() || (left < a.len() && (a[left].start < b[right].start || (
            a[left].start == b[right].start && a[left].end <= b[right].end)));
            let interval = if take_left {
                let interval = a[left];
                left += 1;
                interval
            } else {
                let interval = b[right];
                right += 1;
                interval
            };
            let ghost before = merged@;
            proof {
                if take_left {
                    assert(a@[left - 1].wf());
                } else {
                    assert(b@[right - 1].wf());
                }
            }
            Self::push_merged(&mut merged, interval);
            proof {
                assert(merged.len() > 0);
                assert(forall|v: int| in_ivs(merged@, v) <==> (in_ivs(before, v) || interval.has(v)));
                if left < a.len() {
                    if take_left {
                        assert(a@[left - 1].end + 1 < a@[left as int].start);
                    } else {
                        assert(interval.start <= a@[left as int].start);
                    }
                }
                if right < b.len() {
                    if !take_left {
                        assert(b@[right - 1].end + 1 < b@[right as int].start);
                    } else {
                        assert(interval.start <= b@[right as int].start);
                    }
                }
                let asub = a@.subrange(left as int, a.len() as int);
                let bsub = b@.subrange(right as int, b.len() as int);
                if take_left {
                    lemma_in_ivs_drop_first(old_asub);
                    assert(old_asub.drop_first() =~= asub);
                    assert(old_asub[0] == interval);
                    assert(old_bsub == bsub);
                } else {
                    lemma_in_ivs_drop_first(old_bsub);
                    assert(old_bsub.drop_first() =~= bsub);
                    assert(old_bsub[0] == interval);
                    assert(old_asub == asub);
                }
                assert forall|v: int| (in_ivs(merged@, v) || in_ivs(asub, v) || in_ivs(bsub, v)) <==> (in_ivs(a@, v)
                    || in_ivs(b@, v)) by {
                    assert((in_ivs(before, v) || in_ivs(old_asub, v) || in_ivs(old_bsub, v)) <==> (in_ivs(a@, v)
                        || in_ivs(b@, v)));
                    assert(in_ivs(merged@, v) == (in_ivs(before, v) || interval.has(v)));
                    if take_left {
                        assert(in_ivs(old_asub, v) == (interval.has(v) || in_ivs(asub, v)));
                    } else {
                        assert(in_ivs(old_bsub, v) == (interval.has(v) || in_ivs(bsub, v)));
                    }
                }
            }
        }
        proof {
            assert forall|v: int| !in_ivs(a@.subrange(left as int, a.len() as int), v) by {}
            assert forall|v: int| !in_ivs(b@.subrange(right as int, b.len() as int), v) by {}
        }
        Self { intervals: merged }
    }

    pub fn intersect(&self, other: &Self) -> (r: Self)
        ensures
            r.wf(),
            forall|v: int| r.has(v) <==> (self.has(v) && other.has(v)),
    {
        proof {
            use_type_invariant(self);
            use_type_invariant(other);
        }
        let a = &self.intervals;
        let b = &other.intervals;
        let mut result: Vec<Interval> = Vec::new();
        let mut left: usize = 0;
        let mut right: usize = 0;
        while left < a.len() && right < b.len()
            invariant
                left <= a.len(),
                right <= b.len(),
                ivs_wf(a@),
                ivs_wf(b@),
                ivs_wf(result@),
                result.len() > 0 ==> result@.last().end + 1 < intersect_frontier(a@, b@, left as int, right as int),
                forall|v: int| #[trigger] in_ivs(result@, v) <==> (in_ivs(a@, v) && in_ivs(b@, v) && v < intersect_frontier(
                    a@, b@, left as int, right as int)),
            decreases a.len() + b.len() - left - right,
        {
            let x = a[left];
            let y = b[right];
            let start = if x.start >= y.start { x.start } else { y.start };
            let end = if x.end <= y.end { x.end } else { y.end };
            let ghost before = result@;
            let ghost old_left = left as int;
            let ghost old_right = right as int;
            proof {
                assert(x.wf());
                assert(y.wf());
            }
            if start <= end {
                result.push(Interval::new(start, end));
            }
            if x.end < y.end {
                left += 1;
            } else {
                right += 1;
            }
            proof {
                lemma_intersect_step(a@, b@, old_left, old_right);
                let f0 = intersect_frontier(a@, b@, old_left, old_right);
                let f1 = intersect_frontier(a@, b@, left as int, right as int);
                assert(f0 == start);
                if start <= end {
                    assert forall|i: int, j: int| 0 <= i < j < result@.len() implies #[trigger] result@[i].end + 1
                        < #[trigger] result@[j].start by {
                        if j < before.len() {
                            assert(before[i].end + 1 < before[j].start);
                        } else if i < before.len() - 1 {
                            assert(before[i].end + 1 < before[before.len() - 1].start);
                        }
                    }
                    assert forall|v: int| #[trigger] in_ivs(result@, v) <==> (in_ivs(a@, v) && in_ivs(b@, v) && v < f1) by {
                        if in_ivs(result@, v) {
                            let i = choose|i: int| 0 <= i < result@.len() && (#[trigger] result@[i]).has(v);
                            if i < before.len() {
                                assert(before[i].has(v));
                            } else {
                                assert(x.has(v) && y.has(v));
                                assert(a@[old_left].has(v));
                                assert(b@[old_right].has(v));
                            }
                        }
                        if in_ivs(before, v) {
                            let i = choose|i: int| 0 <= i < before.len() && (#[trigger] before[i]).has(v);
                            assert(result@[i].has(v));
                        }
                        if in_ivs(a@, v) && in_ivs(b@, v) && v < f1 && v >= f0 {
                            assert(result@[result@.len() - 1].has(v));
                        }
                    }
                } else {
                    assert(result@ == before);
                }
            }
        }
        proof {
            assert(intersect_frontier(a@, b@, left as int, right as int) == 0x110001);
        }
        Self { intervals: result }
    }

    pub fn subtract(&self, other: &Self) -> (r: Self)
        ensures
            r.wf(),
            forall|v: int| r.has(v) <==> (self.has(v) && !other.has(v)),
    {
        proof {
            use_type_invariant(self);
            use_type_invariant(other);
        }
        let a = &self.intervals;
        let b = &other.intervals;
        let mut result: Vec<Interval> = Vec::new();
        let mut s: usize = 0;
        while s < a.len()
            invariant
                s <= a.len(),
                ivs_wf(a@),
                ivs_wf(b@),
                ivs_wf(result@),
                result.len() > 0 ==> (s < a.len() ==> result@.last().end + 1 < a@[s as int].start),
                forall|v: int| #[trigger] in_ivs(result@, v) <==> (in_ivs(a@.subrange(0, s as int), v) && !in_ivs(b@, v)),
            decreases a.len() - s,
        {
            let source = a[s];
            proof {
                assert(source.wf());
                assert(b@.subrange(0, b.len() as int) =~= b@);
            }
            let mut cursor = source.start;
            let mut k: usize = 0;
            let ghost base = result@;
            while k < b.len() && cursor <= source.end
                invariant
                    k <= b.len(),
                    source.wf(),
                    ivs_wf(b@),
                    ivs_wf(result@),
                    source.start <= cursor,
                    result.len() > 0 ==> result@.last().end + 1 < cursor,
                    result.len() > 0 ==> result@.last().end <= source.end,
                    forall|v: int| #[trigger] in_ivs(result@, v) <==> (in_ivs(base, v) || (source.start <= v < cursor && v
                        <= source.end && !in_ivs(b@, v))),
                    forall|v: int| cursor <= v <= source.end && in_ivs(b@, v) ==> in_ivs(b@.subrange(k as int, b.len() as int), v),
                decreases b.len() - k,
            {
                let removed = b[k];
                proof {
                    assert(removed.wf());
                    lemma_in_ivs_drop_first(b@.subrange(k as int, b.len() as int));
                    assert(b@.subrange(k as int, b.len() as int).drop_first() =~= b@.subrange(k + 1, b.len() as int));
                    assert(b@.subrange(k as int, b.len() as int)[0] == removed);
                }
                if removed.end < cursor || removed.start > source.end {
                    proof {
                        assert forall|v: int| cursor <= v <= source.end && in_ivs(b@, v) implies in_ivs(
                            b@.subrange(k + 1, b.len() as int),
                            v,
                        ) by {
                            assert(in_ivs(b@.subrange(k as int, b.len() as int), v));
                            assert(!removed.has(v));
                        }
                    }
                    k += 1;
                } else {
                    let ghost before = result@;
                    let ghost old_cursor = cursor;
                    proof {
                        assert forall|v: int| old_cursor <= v < removed.start implies !in_ivs(b@, v) by {
                            if in_ivs(b@, v) {
                                assert(in_ivs(b@.subrange(k as int, b.len() as int), v));
                                let i = choose|i: int| 0 <= i < b.len() - k && (#[trigger] b@.subrange(k as int, b.len() as int)[i]).has(v);
                                if i > 0 {
                                    assert(b@[k as int].end + 1 < b@[k + i].start);
                                }
                            }
                        }
                    }
                    if removed.start > cursor {
                        let piece = Interval::new(cursor, removed.start - 1);
                        result.push(piece);
                        proof {
                            lemma_in_ivs_push(before, piece);
                            assert forall|i: int, j: int| 0 <= i < j < result@.len() implies #[trigger] result@[i].end + 1
                                < #[trigger] result@[j].start by {
                                if j < before.len() {
                                    assert(before[i].end + 1 < before[j].start);
                                } else if i < before.len() - 1 {
                                    assert(before[i].end + 1 < before[before.len() - 1].start);
                                }
                            }
                        }
                    }
                    let ghost mid = if removed.start > old_cursor { removed.start as int } else { old_cursor as int };
                    proof {
                        assert forall|v: int| #[trigger] in_ivs(result@, v) <==> (in_ivs(base, v) || (source.start <= v < mid && v
                            <= source.end && !in_ivs(b@, v))) by {
                            assert(in_ivs(before, v) <==> (in_ivs(base, v) || (source.start <= v < old_cursor && v
                                <= source.end && !in_ivs(b@, v))));
                        }
                    }
                    let next = removed.end + 1;
                    if next > cursor {
                        cursor = next;
                    }
                    proof {
                        assert forall|v: int| mid <= v < cursor implies in_ivs(b@, v) by {
                            assert(b@[k as int].has(v));
                        }
                        assert forall|v: int| #[trigger] in_ivs(result@, v) <==> (in_ivs(base, v) || (source.start <= v < cursor
                            && v <= source.end && !in_ivs(b@, v))) by {
                            assert(in_ivs(result@, v) <==> (in_ivs(base, v) || (source.start <= v < mid && v
                                <= source.end && !in_ivs(b@, v))));
                        }
                        assert forall|v: int| cursor <= v <= source.end && in_ivs(b@, v) implies in_ivs(
                            b@.subrange(k + 1, b.len() as int),
                            v,
                        ) by {
                            assert(in_ivs(b@.subrange(k as int, b.len() as int), v));
                            assert(!removed.has(v));
                        }
                    }
                    k += 1;
                }
            }
            let ghost before = result@;
            if cursor <= source.end {
                let piece = Interval::new(cursor, source.end);
                result.push(piece);
                proof {
                    lemma_in_ivs_push(before, piece);
                    assert forall|i: int, j: int| 0 <= i < j < result@.len() implies #[trigger] result@[i].end + 1
                        < #[trigger] result@[j].start by {
                        if j < before.len() {
                            assert(before[i].end + 1 < before[j].start);
                        } else if i < before.len() - 1 {
                            assert(before[i].end + 1 < before[before.len() - 1].start);
                        }
                    }
                    assert forall|v: int| cursor <= v <= source.end implies !in_ivs(b@, v) by {
                        if in_ivs(b@, v) {
                            assert(in_ivs(b@.subrange(k as int, b.len() as int), v));
                        }
                    }
                }
            }
            proof {
                let sub0 = a@.subrange(0, s as int);
                let sub1 = a@.subrange(0, s + 1);
                assert(sub1 =~= sub0.push(source));
                lemma_in_ivs_push(sub0, source);
                assert forall|v: int| #[trigger] in_ivs(result@, v) <==> (in_ivs(sub1, v) && !in_ivs(b@, v)) by {
                    assert(in_ivs(base, v) <==> (in_ivs(sub0, v) && !in_ivs(b@, v)));
                    assert(in_ivs(before, v) <==> (in_ivs(base, v) || (source.start <= v < cursor && v
                        <= source.end && !in_ivs(b@, v))));
                }
                if s + 1 < a.len() {
                    assert(a@[s as int].end + 1 < a@[s + 1].start);
                }
            }
            s += 1;
        }
        proof {
            assert(a@.subrange(0, a.len() as int) =~= a@);
        }
        Self { intervals: result }
    }

    /// The alphabet without the members of this set.
    pub fn complement(&self, alphabet: Alphabet) -> (r: Self)
        ensures
            r.wf(),
            forall|v: int| r.has(v) <==> (alphabet_has(alphabet, v) && !self.has(v)),
    {
        let universe = Self::from_u32_intervals(alphabet.scalar_intervals());
        universe.subtract(self)
    }

    /// This set restricted to the alphabet.
    pub fn clipped(&self, alphabet: Alphabet) -> (r: Self)
        ensures
            r.wf(),
            forall|v: int| r.has(v) <==> (alphabet_has(alphabet, v) && self.has(v)),
    {
        self.intersect(&Self::from_u32_intervals(alphabet.scalar_intervals()))
    }

    pub fn is_empty(&self) -> (r: bool)
        ensures
            r <==> forall|v: int| !self.has(v),
    {
        proof {
            use_type_invariant(self);
        }
        let r = self.intervals.len() == 0;
        proof {
            if !r {
                let v = self.intervals@[0].start as int;
                assert(self.intervals@[0].has(v));
                assert(self.has(v));
            } else {
                assert forall|v: int| !self.has(v) by {
                    if self.has(v) {
                        let i = choose|i: int| 0 <= i < self.spec_intervals().len() && (#[trigger] self.spec_intervals()[i]).has(v);
                        assert(self.intervals@.len() == 0);
                    }
                }
            }
        }
        r
    }

    /// `v` is the one and only member of the set.
    pub open spec fn is_only(&self, v: int) -> bool {
        forall|w: int| self.has(w) <==> w == v
    }

    /// The two sets hold the same values (their canonical lists agree).
    pub fn same_set(&self, other: &Self) -> (r: bool)
        ensures
            r == (forall|v: int| self.has(v) == other.has(v)),
    {
        proof {
            use_type_invariant(self);
            use_type_invariant(other);
        }
        let a = &self.intervals;
        let b = &other.intervals;
        let mut equal = a.len() == b.len();
        let mut i: usize = 0;
        while equal && i < a.len()
            invariant
                a@ == self.spec_intervals(),
                b@ == other.spec_intervals(),
                ivs_wf(a@),
                ivs_wf(b@),
                equal ==> a@.len() == b@.len(),
                i <= a@.len(),
                equal ==> forall|k: int| 0 <= k < i ==> a@[k] == b@[k],
                !equal ==> a@ != b@,
            decreases a@.len() - i,
        {
            if a[i].start != b[i].start || a[i].end != b[i].end {
                equal = false;
                proof {
                    assert(a@[i as int] != b@[i as int]);
                }
            }
            i += 1;
        }
        proof {
            if equal {
                assert(a@ =~= b@);
            } else {
                if forall|v: int| self.has(v) == other.has(v) {
                    assert forall|v: int| in_ivs(a@, v) == in_ivs(b@, v) by {
                        assert(self.has(v) == other.has(v));
                    }
                    lemma_canonical(a@, b@);
                }
            }
        }
        equal
    }

    /// The only member, when the set holds exactly one scalar value.
    pub fn as_singleton(&self) -> (r: Option<char>)
        ensures
            r matches Some(c) ==> self.is_only(c as int),
            r is None ==> !(exists|v: int| is_scalar(v) && #[trigger] self.is_only(v)),
    {
        proof {
            use_type_invariant(self);
        }
        if self.intervals.len() == 1 && self.intervals[0].start == self.intervals[0].end {
            let r = char_from_u32(self.intervals[0].start);
            proof {
                let only = self.intervals@[0].start as int;
                assert forall|v: int| self.has(v) <==> v == only by {
                    if v == only {
                        assert(self.intervals@[0].has(v));
                    }
                }
                if r is None {
                    assert forall|v: int| is_scalar(v) implies !#[trigger] self.is_only(v) by {
                        if self.is_only(v) {
                            assert(self.has(v));
                        }
                    }
                }
            }
            r
        } else {
            proof {
                assert forall|v: int| is_scalar(v) implies !#[trigger] self.is_only(v) by {
                    if self.is_only(v) {
                        assert(self.has(v));
                        if self.intervals.len() == 0 {
                        } else if self.intervals.len() > 1 {
                            assert(self.intervals@[0].end + 1 < self.intervals@[1].start);
                            assert(self.intervals@[0].has(self.intervals@[0].start as int));
                            assert(self.intervals@[1].has(self.intervals@[1].start as int));
                            assert(self.has(self.intervals@[0].start as int));
                            assert(self.has(self.intervals@[1].start as int));
                        } else {
                            assert(self.intervals@[0].has(self.intervals@[0].start as int));
                            assert(self.intervals@[0].has(self.intervals@[0].end as int));
                            assert(self.has(self.intervals@[0].start as int));
                            assert(self.has(self.intervals@[0].end as int));
                        }
                    }
                }
            }
            None
        }
    }

    /// Append `interval` to a canonical list whose last start is not after
    /// `interval.start`, merging it into the last interval when they touch.
    fn push_merged(intervals: &mut Vec<Interval>, interval: Interval)
        requires
            ivs_wf(old(intervals)@),
            interval.wf(),
            old(intervals).len() > 0 ==> old(intervals)@.last().start <= interval.start,
        ensures
            ivs_wf(final(intervals)@),
            final(intervals).len() > 0,
            final(intervals)@.last().start <= interval.start,
            final(intervals)@.last().end >= interval.end,
            old(intervals).len() > 0 ==> final(intervals)@.last().end >= old(intervals)@.last().end,
            forall|v: int| #[trigger] in_ivs(final(intervals)@, v) <==> (in_ivs(old(intervals)@, v) || interval.has(v)),
    {
        let ghost before = intervals@;
        let n = intervals.len();
        if n > 0 {
            let last = intervals[n - 1];
            if interval.start <= last.end + 1 {
                let new_end = if last.end >= interval.end { last.end } else { interval.end };
                intervals.set(n - 1, Interval { start: last.start, end: new_end });
                proof {
                    let after = intervals@;
                    assert forall|i: int| 0 <= i < after.len() implies (#[trigger] after[i]).wf() by {
                        if i < n - 1 {
                            assert(before[i].wf());
                        }
                    }
                    assert forall|i: int, j: int| 0 <= i < j < after.len() implies #[trigger] after[i].end + 1
                        < #[trigger] after[j].start by {
                        assert(before[i].end + 1 < before[j].start);
                    }
                    assert forall|v: int| in_ivs(after, v) <==> (in_ivs(before, v) || interval.has(v)) by {
                        if in_ivs(after, v) {
                            let i = choose|i: int| 0 <= i < after.len() && (#[trigger] after[i]).has(v);
                            if i < n - 1 {
                                assert(before[i].has(v));
                            } else if !last.has(v) {
                                assert(interval.has(v));
                            } else {
                                assert(before[n - 1].has(v));
                            }
                        }
                        if in_ivs(before, v) {
                            let i = choose|i: int| 0 <= i < before.len() && (#[trigger] before[i]).has(v);
                            if i < n - 1 {
                                assert(after[i].has(v));
                            } else {
                                assert(after[n - 1].has(v));
                            }
                        }
                        if interval.has(v) {
                            assert(after[n - 1].has(v));
                        }
                    }
                }
                return ;
            }
        }
        intervals.push(interval);
        proof {
            let after = intervals@;
            assert forall|i: int, j: int| 0 <= i < j < after.len() implies #[trigger] after[i].end + 1
                < #[trigger] after[j].start by {
                if j == n {
                    if i < n - 1 {
                        assert(before[i].end + 1 < before[n - 1].start);
                    }
                } else {
                    assert(before[i].end + 1 < before[j].start);
                }
            }
            assert forall|v: int| in_ivs(after, v) <==> (in_ivs(before, v) || interval.has(v)) by {
                if in_ivs(after, v) {
                    let i = choose|i: int| 0 <= i < after.len() && (#[trigger] after[i]).has(v);
                    if i < n {
                        assert(before[i].has(v));
                    }
                }
                if in_ivs(before, v) {
                    let i = choose|i: int| 0 <= i < before.len() && (#[trigger] before[i]).has(v);
                    assert(after[i].has(v));
                }
                if interval.has(v) {
                    assert(after[n as int].has(v));
                }
            }
        }
    }
}

/// `v` is a Unicode scalar value (not a surrogate, not past the top).
pub open spec fn is_scalar(v: int) -> bool {
    (0 <= v <= 0xd7ff) || (0xe000 <= v <= 0x10ffff)
}

/// `char::from_u32`: the character for a scalar value, `None` for a
/// surrogate or a value past `U+10FFFF`, as std documents it.
#[verifier::external_body]
pub(crate) fn char_from_u32(v: u32) -> (r: Option<char>)
    ensures
        r is Some <==> is_scalar(v as int),
        r matches Some(c) ==> c as int == v as int,
{
    char::from_u32(v)
}

/// Appending an interval adds exactly its values.
pub proof fn lemma_in_ivs_push(s: Seq<Interval>, iv: Interval)
    ensures
        forall|v: int| #[trigger] in_ivs(s.push(iv), v) <==> (in_ivs(s, v) || iv.has(v)),
{
    assert forall|v: int| #[trigger] in_ivs(s.push(iv), v) <==> (in_ivs(s, v) || iv.has(v)) by {
        let t = s.push(iv);
        if in_ivs(t, v) {
            let i = choose|i: int| 0 <= i < t.len() && (#[trigger] t[i]).has(v);
            if i < s.len() {
                assert(s[i].has(v));
            }
        }
        if in_ivs(s, v) {
            let i = choose|i: int| 0 <= i < s.len() && (#[trigger] s[i]).has(v);
            assert(t[i].has(v));
        }
        if iv.has(v) {
            assert(t[s.len() as int].has(v));
        }
    }
}

/// Dropping the first interval removes exactly its values (for the rest).
pub proof fn lemma_in_ivs_drop_first(s: Seq<Interval>)
    requires
        s.len() > 0,
    ensures
        forall|v: int| in_ivs(s, v) <==> (s[0].has(v) || in_ivs(s.drop_first(), v)),
{
    assert forall|v: int| in_ivs(s, v) <==> (s[0].has(v) || in_ivs(s.drop_first(), v)) by {
        if in_ivs(s, v) {
            let i = choose|i: int| 0 <= i < s.len() && (#[trigger] s[i]).has(v);
            if i > 0 {
                assert(s.drop_first()[i - 1].has(v));
            }
        }
        if in_ivs(s.drop_first(), v) {
            let i = choose|i: int| 0 <= i < s.len() - 1 && (#[trigger] s.drop_first()[i]).has(v);
            assert(s[i + 1].has(v));
        }
    }
}

/// The first value not yet decided by the two-pointer intersection at
/// positions `l` and `r` (past the top when either list is used up).
pub open spec fn intersect_frontier(a: Seq<Interval>, b: Seq<Interval>, l: int, r: int) -> int {
    if l < a.len() && r < b.len() {
        if a[l].start >= b[r].start {
            a[l].start as int
        } else {
            b[r].start as int
        }
    } else {
        0x110001
    }
}

/// One step of the two-pointer intersection: the values of both sets
/// between the old and the new frontier are exactly those of the two
/// current intervals' overlap.
proof fn lemma_intersect_step(a: Seq<Interval>, b: Seq<Interval>, l: int, r: int)
    requires
        ivs_wf(a),
        ivs_wf(b),
        0 <= l < a.len(),
        0 <= r < b.len(),
    ensures
        ({
            let (nl, nr) = if a[l].end < b[r].end { (l + 1, r) } else { (l, r + 1) };
            let f0 = intersect_frontier(a, b, l, r);
            let f1 = intersect_frontier(a, b, nl, nr);
            let lo = if a[l].start >= b[r].start { a[l].start as int } else { b[r].start as int };
            let hi = if a[l].end <= b[r].end { a[l].end as int } else { b[r].end as int };
            &&& hi < f1
            &&& hi + 1 < f1
            &&& f0 == lo
            &&& forall|v: int| f0 <= v < f1 ==> (in_ivs(a, v) && in_ivs(b, v) <==> lo <= v <= hi)
        }),
{
    let (nl, nr) = if a[l].end < b[r].end { (l + 1, r) } else { (l, r + 1) };
    let f0 = intersect_frontier(a, b, l, r);
    let f1 = intersect_frontier(a, b, nl, nr);
    let lo = if a[l].start >= b[r].start { a[l].start as int } else { b[r].start as int };
    let hi = if a[l].end <= b[r].end { a[l].end as int } else { b[r].end as int };
    assert(a[l].wf() && b[r].wf());
    if nl < a.len() && nr < b.len() {
        if a[l].end < b[r].end {
            assert(a[l].end + 1 < a[l + 1].start);
        } else {
            assert(b[r].end + 1 < b[r + 1].start);
        }
    }
    assert forall|v: int| f0 <= v < f1 implies (in_ivs(a, v) && in_ivs(b, v) <==> lo <= v <= hi) by {
        if in_ivs(a, v) && in_ivs(b, v) {
            let i = choose|i: int| 0 <= i < a.len() && (#[trigger] a[i]).has(v);
            let j = choose|j: int| 0 <= j < b.len() && (#[trigger] b[j]).has(v);
            if i < l {
                assert(a[i].end + 1 < a[l].start);
            }
            if j < r {
                assert(b[j].end + 1 < b[r].start);
            }
            if i > l {
                assert(a[l].end + 1 < a[i].start);
                if l + 1 < i {
                    assert(a[l + 1].end + 1 < a[i].start);
                }
                assert(a[l + 1].start <= a[i].start);
            }
            if j > r {
                assert(b[r].end + 1 < b[j].start);
                if r + 1 < j {
                    assert(b[r + 1].end + 1 < b[j].start);
                }
                assert(b[r + 1].start <= b[j].start);
            }
        }
        if lo <= v <= hi {
            assert(a[l].has(v));
            assert(b[r].has(v));
        }
    }
}


/// Two canonical lists holding the same values are the same list.
pub proof fn lemma_canonical(a: Seq<Interval>, b: Seq<Interval>)
    requires
        ivs_wf(a),
        ivs_wf(b),
        forall|v: int| in_ivs(a, v) == in_ivs(b, v),
    ensures
        a == b,
    decreases a.len() + b.len(),
{
    if a.len() == 0 || b.len() == 0 {
        if a.len() > 0 {
            assert(a[0].has(a[0].start as int));
            assert(in_ivs(a, a[0].start as int));
        }
        if b.len() > 0 {
            assert(b[0].has(b[0].start as int));
            assert(in_ivs(b, b[0].start as int));
        }
        assert(a =~= b);
    } else {
        let (x, y) = (a[0], b[0]);
        // The least value of each list is its first start.
        assert(x.has(x.start as int) && y.has(y.start as int));
        assert(in_ivs(a, x.start as int) && in_ivs(b, y.start as int));
        lemma_first_is_least(a);
        lemma_first_is_least(b);
        assert(x.start == y.start);
        // The first run of each list ends where the next value is missing.
        lemma_first_run(a);
        lemma_first_run(b);
        if x.end < y.end {
            assert(y.has(x.end + 1));
            assert(in_ivs(b, x.end + 1));
        }
        if y.end < x.end {
            assert(x.has(y.end + 1));
            assert(in_ivs(a, y.end + 1));
        }
        assert(x == y);
        let (ra, rb) = (a.drop_first(), b.drop_first());
        assert(ivs_wf(ra)) by {
            assert forall|i: int| 0 <= i < ra.len() implies (#[trigger] ra[i]).wf() by {
                assert(ra[i] == a[i + 1]);
            }
            assert forall|i: int, j: int| 0 <= i < j < ra.len() implies #[trigger] ra[i].end + 1 < #[trigger] ra[j].start by {
                assert(ra[i] == a[i + 1] && ra[j] == a[j + 1]);
            }
        }
        assert(ivs_wf(rb)) by {
            assert forall|i: int| 0 <= i < rb.len() implies (#[trigger] rb[i]).wf() by {
                assert(rb[i] == b[i + 1]);
            }
            assert forall|i: int, j: int| 0 <= i < j < rb.len() implies #[trigger] rb[i].end + 1 < #[trigger] rb[j].start by {
                assert(rb[i] == b[i + 1] && rb[j] == b[j + 1]);
            }
        }
        assert forall|v: int| in_ivs(ra, v) == in_ivs(rb, v) by {
            lemma_rest_values(a, v);
            lemma_rest_values(b, v);
        }
        lemma_canonical(ra, rb);
        assert(a =~= seq![x] + ra);
        assert(b =~= seq![y] + rb);
    }
}

/// Nothing in a canonical list is below its first start.
proof fn lemma_first_is_least(a: Seq<Interval>)
    requires
        ivs_wf(a),
        a.len() > 0,
    ensures
        forall|v: int| in_ivs(a, v) ==> a[0].start <= v,
{
    assert forall|v: int| in_ivs(a, v) implies a[0].start <= v by {
        let i = choose|i: int| 0 <= i < a.len() && (#[trigger] a[i]).has(v);
        if i > 0 {
            assert(a[0].end + 1 < a[i].start);
        }
    }
}

/// In a canonical list the values up to the first end are exactly the
/// first interval, and the value after it is missing.
proof fn lemma_first_run(a: Seq<Interval>)
    requires
        ivs_wf(a),
        a.len() > 0,
    ensures
        !in_ivs(a, a[0].end + 1),
        forall|v: int| a[0].start <= v <= a[0].end ==> in_ivs(a, v),
{
    if in_ivs(a, a[0].end + 1) {
        let i = choose|i: int| 0 <= i < a.len() && (#[trigger] a[i]).has(a[0].end + 1);
        if i > 0 {
            assert(a[0].end + 1 < a[i].start);
        }
    }
    assert forall|v: int| a[0].start <= v <= a[0].end implies in_ivs(a, v) by {
        assert(a[0].has(v));
    }
}

/// Past the first interval, a canonical list holds what its tail holds.
proof fn lemma_rest_values(a: Seq<Interval>, v: int)
    requires
        ivs_wf(a),
        a.len() > 0,
    ensures
        in_ivs(a.drop_first(), v) == (in_ivs(a, v) && !a[0].has(v)),
{
    let r = a.drop_first();
    if in_ivs(r, v) {
        let i = choose|i: int| 0 <= i < r.len() && (#[trigger] r[i]).has(v);
        assert(r[i] == a[i + 1]);
        assert(a[0].end + 1 < a[i + 1].start);
    }
    if in_ivs(a, v) && !a[0].has(v) {
        let i = choose|i: int| 0 <= i < a.len() && (#[trigger] a[i]).has(v);
        assert(i > 0);
        assert(r[i - 1] == a[i]);
    }
}

} // verus!
