use crate::charset::CharSet;
use crate::config::{alphabet_has, Alphabet};
use vstd::prelude::*;

verus! {

/// A byte range `start..end` of the pattern text.
#[derive(Clone, Copy, Debug, Eq, PartialEq, Structural)]
pub struct Span {
    pub start: usize,
    pub end: usize,
}

impl Span {
    pub fn new(start: usize, end: usize) -> (r: Self)
        ensures
            r.start == start,
            r.end == end,
    {
        Self { start, end }
    }

    /// The smallest span covering both.
    pub fn join(self, other: Self) -> (r: Self)
        ensures
            r.start == if self.start <= other.start { self.start } else { other.start },
            r.end == if self.end >= other.end { self.end } else { other.end },
    {
        Self {
            start: if self.start <= other.start { self.start } else { other.start },
            end: if self.end >= other.end { self.end } else { other.end },
        }
    }
}

/// A parsed regular expression node.
#[derive(Debug)]
pub struct Expr {
    pub kind: ExprKind,
    pub span: Span,
}

impl Expr {
    pub(crate) fn new(kind: ExprKind, span: Span) -> (r: Self)
        ensures
            r.kind == kind,
            r.span == span,
    {
        Self { kind, span }
    }
}

#[derive(Debug)]
#[non_exhaustive]
pub enum ExprKind {
    Empty,
    Literal(char),
    CharSet(CharSet),
    Concat(Vec<Expr>),
    Alt(Vec<Expr>),
    Repeat { expr: Box<Expr>, min: usize, max: Option<usize> },
    AnchorStart,
    AnchorEnd,
}

/// The shape the parser guarantees: literals and classes stay inside the
/// alphabet, a concatenation or an alternation has at least two parts, and
/// repetition bounds are ordered; a counted bound stays within
/// `max_repeat` (only `*`, `+` and `?` may pass it).
pub open spec fn expr_wf(e: Expr, alphabet: Alphabet, max_repeat: usize) -> bool
    decreases e,
{
    match e.kind {
        ExprKind::Literal(c) => alphabet_has(alphabet, c as int),
        ExprKind::CharSet(set) => forall|v: int| set.has(v) ==> alphabet_has(alphabet, v),
        ExprKind::Concat(parts) => parts@.len() >= 2 && forall|i: int|
            0 <= i < parts@.len() ==> expr_wf(#[trigger] parts@[i], alphabet, max_repeat),
        ExprKind::Alt(branches) => branches@.len() >= 2 && forall|i: int|
            0 <= i < branches@.len() ==> expr_wf(#[trigger] branches@[i], alphabet, max_repeat),
        ExprKind::Repeat { expr, min, max } => expr_wf(*expr, alphabet, max_repeat) && match max {
            Some(m) => min <= m && (m <= max_repeat || (min == 0 && m == 1)),
            None => min <= max_repeat || min <= 1,
        },
        _ => true,
    }
}

/// The strings an expression matches as a whole: an empty expression or an
/// anchor matches the empty string only, a literal or class one character
/// it holds, a concatenation its parts one after another, an alternation
/// any branch (nothing at all when it has none), and a repetition from
/// `min` up to `max` (or more, when unbounded) copies of its body.
pub open spec fn matches_expr(e: Expr, w: Seq<char>) -> bool
    decreases e, 2nat, 0nat,
{
    match e.kind {
        ExprKind::Empty => w.len() == 0,
        ExprKind::Literal(c) => w == seq![c],
        ExprKind::CharSet(set) => w.len() == 1 && set.has(w[0] as int),
        ExprKind::Concat(parts) => matches_concat(e, parts@.len() as nat, w),
        ExprKind::Alt(branches) => exists|i: int|
            0 <= i < branches@.len() && matches_expr(#[trigger] branches@[i], w),
        ExprKind::Repeat { expr, min, max } => exists|n: nat| #[trigger] copies_allowed(min, max, n) && matches_power(e, n, w),
        ExprKind::AnchorStart => w.len() == 0,
        ExprKind::AnchorEnd => w.len() == 0,
    }
}

/// `n` copies lie between the bounds of a repetition.
pub open spec fn copies_allowed(min: usize, max: Option<usize>, n: nat) -> bool {
    min <= n && (max matches Some(m) ==> n <= m)
}

/// `w` is the first `i` parts of the concatenation `e`, one after another.
pub open spec fn matches_concat(e: Expr, i: nat, w: Seq<char>) -> bool
    decreases e, 1nat, i,
{
    match e.kind {
        ExprKind::Concat(parts) => if i == 0 {
            w.len() == 0
        } else if i <= parts@.len() {
            proof {
                assert(decreases_to!(e => e.kind));
                assert(decreases_to!(e.kind => e.kind->Concat_0));
                assert(decreases_to!(parts => parts@));
                assert(decreases_to!(parts@ => parts@[i - 1]));
            }
            exists|k: int|
                0 <= k <= w.len() && matches_concat(e, (i - 1) as nat, #[trigger] w.take(k)) && matches_expr(
                    parts@[i - 1],
                    w.skip(k),
                )
        } else {
            false
        },
        _ => false,
    }
}

/// `w` is `n` copies of the body of the repetition `e`, one after another.
pub open spec fn matches_power(e: Expr, n: nat, w: Seq<char>) -> bool
    decreases e, 1nat, n,
{
    match e.kind {
        ExprKind::Repeat { expr, .. } => if n == 0 {
            w.len() == 0
        } else {
            proof {
                assert(decreases_to!(e => e.kind));
                assert(decreases_to!(e.kind => e.kind->expr));
            }
            exists|k: int|
                0 <= k <= w.len() && matches_power(e, (n - 1) as nat, #[trigger] w.take(k)) && matches_expr(*expr, w.skip(k))
        },
        _ => false,
    }
}

/// Every bounded repetition has its lower bound at most its upper one.
pub open spec fn bounds_ordered(e: Expr) -> bool
    decreases e,
{
    match e.kind {
        ExprKind::Concat(parts) => forall|i: int| 0 <= i < parts@.len() ==> bounds_ordered(#[trigger] parts@[i]),
        ExprKind::Alt(branches) => forall|i: int| 0 <= i < branches@.len() ==> bounds_ordered(#[trigger] branches@[i]),
        ExprKind::Repeat { expr, min, max } => bounds_ordered(*expr) && (max matches Some(m) ==> min <= m),
        _ => true,
    }
}

/// What the parser guarantees includes ordered bounds.
pub proof fn lemma_wf_bounds_ordered(e: Expr, alphabet: Alphabet, max_repeat: usize)
    requires
        expr_wf(e, alphabet, max_repeat),
    ensures
        bounds_ordered(e),
    decreases e,
{
    match e.kind {
        ExprKind::Concat(parts) => {
            assert forall|i: int| 0 <= i < parts@.len() implies bounds_ordered(#[trigger] parts@[i]) by {
                lemma_wf_bounds_ordered(parts@[i], alphabet, max_repeat);
            }
        },
        ExprKind::Alt(parts) => {
            assert forall|i: int| 0 <= i < parts@.len() implies bounds_ordered(#[trigger] parts@[i]) by {
                lemma_wf_bounds_ordered(parts@[i], alphabet, max_repeat);
            }
        },
        ExprKind::Repeat { expr, .. } => {
            lemma_wf_bounds_ordered(*expr, alphabet, max_repeat);
        },
        _ => {},
    }
}

/// One more part of a concatenation, after the first `i - 1`.
pub proof fn lemma_concat_unfold(e: Expr, i: nat, w: Seq<char>)
    requires
        e.kind matches ExprKind::Concat(parts) && 0 < i <= parts@.len(),
    ensures
        e.kind matches ExprKind::Concat(parts) && matches_concat(e, i, w) == exists|k: int|
            0 <= k <= w.len() && matches_concat(e, (i - 1) as nat, #[trigger] w.take(k)) && matches_expr(
                parts@[i - 1],
                w.skip(k),
            ),
{
    assert(i != 0);
}

/// One more copy of a repetition's body, after the first `n - 1`.
pub proof fn lemma_power_unfold(e: Expr, n: nat, w: Seq<char>)
    requires
        e.kind matches ExprKind::Repeat { .. },
        n > 0,
    ensures
        e.kind matches ExprKind::Repeat { expr, .. } && matches_power(e, n, w) == exists|k: int|
            0 <= k <= w.len() && matches_power(e, (n - 1) as nat, #[trigger] w.take(k)) && matches_expr(*expr, w.skip(k)),
{
    assert(n != 0);
}

} // verus!
