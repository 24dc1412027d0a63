use crate::ast::{matches_concat, matches_expr, matches_power, Expr, ExprKind};
use crate::config::{alphabet_has, Alphabet};
use crate::parser::{class_ok, escape_ok, chars_between, decimal_value, digit_value, utf8_width, class_body_start, class_close, class_set_has, escape_literal, shorthand_escape, shorthand_has};
use vstd::prelude::*;

verus! {

/// A concatenation that reaches `p` stops there: at the end, before `)`,
/// or before `|`.
pub open spec fn at_branch_end(c: Seq<(usize, char)>, p: int) -> bool {
    p >= c.len() || c[p].1 == ')' || c[p].1 == '|'
}

/// The character after an atom ending at `q` opens a quantifier: `*`,
/// `+`, `?` or `{`.
pub open spec fn quantified(c: Seq<(usize, char)>, q: int) -> bool {
    0 <= q < c.len() && (c[q].1 == '*' || c[q].1 == '+' || c[q].1 == '?' || c[q].1 == '{')
}

/// `n` copies are allowed by the quantifier at `q`: any number for `*`, at
/// least one for `+`, at most one for `?`, and between the bounds of a
/// braced quantifier.
pub open spec fn quantifier_allows(c: Seq<(usize, char)>, q: int, n: nat) -> bool {
    if c[q].1 == '*' {
        true
    } else if c[q].1 == '+' {
        n >= 1
    } else if c[q].1 == '?' {
        n <= 1
    } else {
        brace_min(c, q) <= n && (brace_max(c, q) matches Some(m) ==> n <= m)
    }
}

/// Where the atom that starts at `p` ends: after the closing `)` of a
/// group, after the `]` of a class, after the escaped character of an
/// escape, after the character otherwise.
pub open spec fn atom_end(c: Seq<(usize, char)>, p: int, a: Alphabet) -> int
    decreases c.len() - p, 0int,
{
    if p < 0 || p >= c.len() {
        p + 1
    } else if c[p].1 == '(' {
        alt_end(c, p + 1, a) + 1
    } else if c[p].1 == '[' {
        class_close(c, class_body_start(c, p + 1), false, a) + 1
    } else if c[p].1 == '\\' {
        p + 2
    } else {
        p + 1
    }
}

/// Where the atom at `p` and its quantifier, if any, end.
pub open spec fn repeat_end(c: Seq<(usize, char)>, p: int, a: Alphabet) -> int
    decreases c.len() - p, 1int,
{
    let q = atom_end(c, p, a);
    if quantified(c, q) {
        if c[q].1 == '{' {
            brace_end(c, q)
        } else {
            q + 1
        }
    } else {
        q
    }
}

/// Where the concatenation that starts at `p` ends.
pub open spec fn concat_end(c: Seq<(usize, char)>, p: int, a: Alphabet) -> int
    decreases c.len() - p, 2int,
{
    if p < 0 || at_branch_end(c, p) {
        p
    } else {
        let r = repeat_end(c, p, a);
        if p < r <= c.len() {
            concat_end(c, r, a)
        } else {
            p
        }
    }
}

/// Where the alternation that starts at `p` ends.
pub open spec fn alt_end(c: Seq<(usize, char)>, p: int, a: Alphabet) -> int
    decreases c.len() - p, 3int,
{
    if p < 0 || p > c.len() {
        p
    } else {
        let e = concat_end(c, p, a);
        if p <= e < c.len() && c[e].1 == '|' {
            alt_end(c, e + 1, a)
        } else {
            e
        }
    }
}

/// `.` matches `v`.
pub open spec fn dot_has(a: Alphabet, dot_matches_newline: bool, v: int) -> bool {
    alphabet_has(a, v) && (dot_matches_newline || v != '\n' as int)
}

/// The atom at `p` matches `w`.
pub open spec fn atom_has(c: Seq<(usize, char)>, p: int, a: Alphabet, dot: bool, w: Seq<char>) -> bool
    decreases c.len() - p, 0int, 0nat,
{
    if p < 0 || p >= c.len() {
        false
    } else if c[p].1 == '(' {
        alt_has(c, p + 1, a, dot, w)
    } else if c[p].1 == '[' {
        w.len() == 1 && class_set_has(c, p + 1, a, w[0] as int)
    } else if c[p].1 == '.' {
        w.len() == 1 && dot_has(a, dot, w[0] as int)
    } else if c[p].1 == '\\' {
        if p + 1 < c.len() && shorthand_escape(c[p + 1].1) {
            w.len() == 1 && shorthand_has(c[p + 1].1, a, w[0] as int)
        } else {
            p + 1 < c.len() && w == seq![escape_literal(c[p + 1].1, false)]
        }
    } else if c[p].1 == '^' || c[p].1 == '$' {
        w.len() == 0
    } else {
        w == seq![c[p].1]
    }
}

/// `n` copies of the atom at `p`, one after another, match `w`.
pub open spec fn atom_power(c: Seq<(usize, char)>, p: int, a: Alphabet, dot: bool, n: nat, w: Seq<char>) -> bool
    decreases c.len() - p, 1int, n,
{
    if n == 0 {
        w.len() == 0
    } else {
        exists|k: int|
            0 <= k <= w.len() && atom_power(c, p, a, dot, (n - 1) as nat, #[trigger] w.take(k)) && atom_has(c, p, a, dot, w.skip(k))
    }
}

/// The atom at `p`, with its quantifier if any, matches `w`.
pub open spec fn repeat_has(c: Seq<(usize, char)>, p: int, a: Alphabet, dot: bool, w: Seq<char>) -> bool
    decreases c.len() - p, 2int, 0nat,
{
    let q = atom_end(c, p, a);
    if quantified(c, q) {
        exists|n: nat| #[trigger] quantifier_allows(c, q, n) && atom_power(c, p, a, dot, n, w)
    } else {
        atom_has(c, p, a, dot, w)
    }
}

/// The concatenation from `p` on matches `w`.
pub open spec fn concat_has(c: Seq<(usize, char)>, p: int, a: Alphabet, dot: bool, w: Seq<char>) -> bool
    decreases c.len() - p, 3int, 0nat,
{
    if p < 0 || at_branch_end(c, p) {
        w.len() == 0
    } else {
        let r = repeat_end(c, p, a);
        if p < r <= c.len() {
            exists|k: int|
                0 <= k <= w.len() && repeat_has(c, p, a, dot, #[trigger] w.take(k)) && concat_has(c, r, a, dot, w.skip(k))
        } else {
            false
        }
    }
}

/// The alternation from `p` on matches `w`: one of its branches does.
pub open spec fn alt_has(c: Seq<(usize, char)>, p: int, a: Alphabet, dot: bool, w: Seq<char>) -> bool
    decreases c.len() - p, 4int, 0nat,
{
    if p < 0 || p > c.len() {
        false
    } else {
        let e = concat_end(c, p, a);
        concat_has(c, p, a, dot, w) || (p <= e < c.len() && c[e].1 == '|' && alt_has(c, e + 1, a, dot, w))
    }
}


/// Parts `0..i` of `parts`, one after another, match `w`.
pub open spec fn parts_match(parts: Seq<Expr>, i: nat, w: Seq<char>) -> bool
    decreases i,
{
    if i == 0 {
        w.len() == 0
    } else {
        exists|k: int| 0 <= k <= w.len() && parts_match(parts, (i - 1) as nat, #[trigger] w.take(k)) && matches_expr(parts[i - 1], w.skip(k))
    }
}

/// A concatenation matches as its parts do, one after another.
pub proof fn lemma_parts_match_concat(e: Expr, n: nat)
    requires
        e.kind is Concat,
        n <= e.kind->Concat_0@.len(),
    ensures
        forall|w: Seq<char>| #[trigger] matches_concat(e, n, w) == parts_match(e.kind->Concat_0@, n, w),
    decreases n,
{
    if n > 0 {
        lemma_parts_match_concat(e, (n - 1) as nat);
        assert forall|w: Seq<char>| #[trigger] matches_concat(e, n, w) == parts_match(e.kind->Concat_0@, n, w) by {
            crate::ast::lemma_concat_unfold(e, n, w);
        }
    }
}

/// Adding a part leaves what the first `i` parts match unchanged.
pub proof fn lemma_parts_match_push(parts: Seq<Expr>, x: Expr, i: nat)
    requires
        i <= parts.len(),
    ensures
        forall|w: Seq<char>| #[trigger] parts_match(parts.push(x), i, w) == parts_match(parts, i, w),
    decreases i,
{
    if i > 0 {
        lemma_parts_match_push(parts, x, (i - 1) as nat);
        assert(parts.push(x)[i - 1] == parts[i - 1]);
        assert forall|w: Seq<char>| #[trigger] parts_match(parts.push(x), i, w) == parts_match(parts, i, w) by {
            if parts_match(parts.push(x), i, w) {
                let k = choose|k: int|
                    0 <= k <= w.len() && parts_match(parts.push(x), (i - 1) as nat, #[trigger] w.take(k)) && matches_expr(
                        parts.push(x)[i - 1],
                        w.skip(k),
                    );
                assert(parts_match(parts, (i - 1) as nat, w.take(k)));
            }
            if parts_match(parts, i, w) {
                let k = choose|k: int|
                    0 <= k <= w.len() && parts_match(parts, (i - 1) as nat, #[trigger] w.take(k)) && matches_expr(parts[i - 1], w.skip(k));
                assert(parts_match(parts.push(x), (i - 1) as nat, w.take(k)));
            }
        }
    }
}

/// Only the kind of an expression decides what it matches.
pub proof fn lemma_same_kind(e1: Expr, e2: Expr)
    requires
        e1.kind == e2.kind,
    ensures
        forall|w: Seq<char>| #[trigger] matches_expr(e1, w) == matches_expr(e2, w),
{
    match e1.kind {
        ExprKind::Concat(parts) => {
            lemma_parts_match_concat(e1, parts@.len() as nat);
            lemma_parts_match_concat(e2, parts@.len() as nat);
            assert forall|w: Seq<char>| #[trigger] matches_expr(e1, w) == matches_expr(e2, w) by {
                assert(matches_expr(e1, w) == matches_concat(e1, parts@.len() as nat, w));
                assert(matches_expr(e2, w) == matches_concat(e2, parts@.len() as nat, w));
            }
        },
        ExprKind::Repeat { expr, min, max } => {
            assert forall|w: Seq<char>| #[trigger] matches_expr(e1, w) == matches_expr(e2, w) by {
                if matches_expr(e1, w) {
                    let n = choose|n: nat| #[trigger] crate::ast::copies_allowed(min, max, n) && matches_power(e1, n, w);
                    lemma_power_same_kind(e1, e2, n);
                    assert(crate::ast::copies_allowed(min, max, n) && matches_power(e2, n, w));
                }
                if matches_expr(e2, w) {
                    let n = choose|n: nat| #[trigger] crate::ast::copies_allowed(min, max, n) && matches_power(e2, n, w);
                    lemma_power_same_kind(e1, e2, n);
                    assert(crate::ast::copies_allowed(min, max, n) && matches_power(e1, n, w));
                }
            }
        },
        _ => {},
    }
}

proof fn lemma_power_same_kind(e1: Expr, e2: Expr, n: nat)
    requires
        e1.kind == e2.kind,
        e1.kind is Repeat,
    ensures
        forall|w: Seq<char>| #[trigger] matches_power(e1, n, w) == matches_power(e2, n, w),
    decreases n,
{
    if n > 0 {
        lemma_power_same_kind(e1, e2, (n - 1) as nat);
        assert forall|w: Seq<char>| #[trigger] matches_power(e1, n, w) == matches_power(e2, n, w) by {
            crate::ast::lemma_power_unfold(e1, n, w);
            crate::ast::lemma_power_unfold(e2, n, w);
        }
    }
}

/// Copies of a repetition's body match as copies of the atom it was read
/// from.
pub proof fn lemma_power_atom(e: Expr, c: Seq<(usize, char)>, p: int, a: Alphabet, dot: bool, n: nat)
    requires
        e.kind is Repeat,
        forall|u: Seq<char>| #[trigger] matches_expr(*e.kind->expr, u) == atom_has(c, p, a, dot, u),
    ensures
        forall|w: Seq<char>| #[trigger] matches_power(e, n, w) == atom_power(c, p, a, dot, n, w),
    decreases n,
{
    if n > 0 {
        lemma_power_atom(e, c, p, a, dot, (n - 1) as nat);
        assert forall|w: Seq<char>| #[trigger] matches_power(e, n, w) == atom_power(c, p, a, dot, n, w) by {
            crate::ast::lemma_power_unfold(e, n, w);
        }
    }
}


/// `w` splits into a string the first `i` parts match and a string the
/// concatenation from `q` on matches.
pub open spec fn split_has(parts: Seq<Expr>, i: nat, c: Seq<(usize, char)>, q: int, a: Alphabet, dot: bool, w: Seq<char>) -> bool {
    exists|k: int| 0 <= k <= w.len() && parts_match(parts, i, #[trigger] w.take(k)) && concat_has(c, q, a, dot, w.skip(k))
}

/// Reading one more quantified atom moves the split point past it.
pub proof fn lemma_concat_step(
    c: Seq<(usize, char)>,
    start: int,
    q: int,
    r: int,
    a: Alphabet,
    dot: bool,
    parts: Seq<Expr>,
    x: Expr,
)
    requires
        0 <= q,
        !at_branch_end(c, q),
        r == repeat_end(c, q, a),
        q < r <= c.len(),
        forall|w: Seq<char>| #[trigger] concat_has(c, start, a, dot, w) == split_has(parts, parts.len(), c, q, a, dot, w),
        forall|u: Seq<char>| #[trigger] matches_expr(x, u) == repeat_has(c, q, a, dot, u),
    ensures
        forall|w: Seq<char>| #[trigger] concat_has(c, start, a, dot, w) == split_has(parts.push(x), parts.len() + 1, c, r, a, dot, w),
{
    let n = parts.len();
    let px = parts.push(x);
    lemma_parts_match_push(parts, x, n);
    assert(px[n as int] == x);
    assert forall|w: Seq<char>| #[trigger] concat_has(c, start, a, dot, w) == split_has(px, n + 1, c, r, a, dot, w) by {
        if split_has(parts, n, c, q, a, dot, w) {
            let k = choose|k: int| 0 <= k <= w.len() && parts_match(parts, n, #[trigger] w.take(k)) && concat_has(c, q, a, dot, w.skip(k));
            let u = w.skip(k);
            let j = choose|j: int| 0 <= j <= u.len() && repeat_has(c, q, a, dot, #[trigger] u.take(j)) && concat_has(c, r, a, dot, u.skip(j));
            let k2 = k + j;
            let x2 = w.take(k2);
            assert(x2.take(k) =~= w.take(k));
            assert(x2.skip(k) =~= u.take(j));
            assert(parts_match(px, n, x2.take(k)));
            assert(matches_expr(px[n as int], x2.skip(k)));
            assert(parts_match(px, n + 1, x2));
            assert(w.skip(k2) =~= u.skip(j));
            assert(split_has(px, n + 1, c, r, a, dot, w));
        }
        if split_has(px, n + 1, c, r, a, dot, w) {
            let k2 = choose|k2: int| 0 <= k2 <= w.len() && parts_match(px, n + 1, #[trigger] w.take(k2)) && concat_has(c, r, a, dot, w.skip(k2));
            let x2 = w.take(k2);
            let k = choose|k: int| 0 <= k <= x2.len() && parts_match(px, n, #[trigger] x2.take(k)) && matches_expr(px[n as int], x2.skip(k));
            assert(x2.take(k) =~= w.take(k));
            let u = w.skip(k);
            let j = k2 - k;
            assert(u.take(j) =~= x2.skip(k));
            assert(u.skip(j) =~= w.skip(k2));
            assert(repeat_has(c, q, a, dot, u.take(j)));
            assert(concat_has(c, q, a, dot, u));
            assert(parts_match(parts, n, w.take(k)));
            assert(split_has(parts, n, c, q, a, dot, w));
        }
    }
}


/// The byte offset, in UTF-8, of character `i` of `s`.
pub open spec fn byte_offset(s: Seq<char>, i: int) -> int
    decreases i,
{
    if i <= 0 {
        0
    } else {
        byte_offset(s, i - 1) + utf8_width(s[i - 1])
    }
}

/// The characters of `s` with their UTF-8 byte offsets.
pub open spec fn char_table(s: Seq<char>) -> Seq<(usize, char)> {
    Seq::new(s.len(), |i: int| (byte_offset(s, i) as usize, s[i]))
}

/// A table whose offsets start at zero and step by each character's width
/// is the table of its characters.
pub proof fn lemma_char_table(t: Seq<(usize, char)>, s: Seq<char>)
    requires
        t.len() == s.len(),
        forall|i: int| 0 <= i < t.len() ==> (#[trigger] t[i]).1 == s[i],
        t.len() > 0 ==> t[0].0 == 0,
        forall|i: int| 0 <= i < t.len() - 1 ==> t[i + 1].0 == (#[trigger] t[i]).0 + utf8_width(t[i].1),
    ensures
        t == char_table(s),
{
    assert forall|i: int| 0 <= i < t.len() implies t[i].0 as int == byte_offset(s, i) by {
        lemma_offset_at(t, s, i);
    }
    assert(t =~= char_table(s));
}

proof fn lemma_offset_at(t: Seq<(usize, char)>, s: Seq<char>, i: int)
    requires
        0 <= i < t.len(),
        t.len() == s.len(),
        forall|i: int| 0 <= i < t.len() ==> (#[trigger] t[i]).1 == s[i],
        t[0].0 == 0,
        forall|i: int| 0 <= i < t.len() - 1 ==> t[i + 1].0 == (#[trigger] t[i]).0 + utf8_width(t[i].1),
    ensures
        t[i].0 as int == byte_offset(s, i),
    decreases i,
{
    if i > 0 {
        lemma_offset_at(t, s, i - 1);
        assert(t[i].0 == t[i - 1].0 + utf8_width(t[i - 1].1));
    }
}


/// Where the run of decimal digits that starts at `p` ends.
pub open spec fn digit_end(c: Seq<(usize, char)>, p: int) -> int
    decreases c.len() - p,
{
    if 0 <= p < c.len() && digit_value(c[p].1) is Some {
        digit_end(c, p + 1)
    } else {
        p
    }
}

/// A run of digits from `p` up to a non-digit (or the end) at `f` ends at `f`.
pub proof fn lemma_digit_end(c: Seq<(usize, char)>, p: int, f: int)
    requires
        0 <= p <= f <= c.len(),
        forall|i: int| p <= i < f ==> (#[trigger] digit_value(c[i].1)) is Some,
        f < c.len() ==> digit_value(c[f].1) is None,
    ensures
        digit_end(c, p) == f,
    decreases f - p,
{
    if p < f {
        assert(digit_value(c[p].1) is Some);
        lemma_digit_end(c, p + 1, f);
    }
}

/// The lower bound of the braced quantifier `{m}`, `{m,}` or `{m,n}` at `q`.
pub open spec fn brace_min(c: Seq<(usize, char)>, q: int) -> int {
    decimal_value(chars_between(c, q + 1, digit_end(c, q + 1)))
}

/// The upper bound of the braced quantifier at `q`, if it has one.
pub open spec fn brace_max(c: Seq<(usize, char)>, q: int) -> Option<int> {
    let d1 = digit_end(c, q + 1);
    if c[d1].1 == '}' {
        Some(brace_min(c, q))
    } else {
        let d2 = digit_end(c, d1 + 1);
        if d2 == d1 + 1 {
            None
        } else {
            Some(decimal_value(chars_between(c, d1 + 1, d2)))
        }
    }
}

/// Where the braced quantifier at `q` ends: after its `}`.
pub open spec fn brace_end(c: Seq<(usize, char)>, q: int) -> int {
    let d1 = digit_end(c, q + 1);
    if c[d1].1 == '}' {
        d1 + 1
    } else {
        digit_end(c, d1 + 1) + 1
    }
}


/// The run of digits from `p` ends at `digit_end(c, p)`: everything before
/// is a digit, and what stands there, if anything, is not.
pub proof fn lemma_digit_run(c: Seq<(usize, char)>, p: int)
    requires
        0 <= p <= c.len(),
    ensures
        p <= digit_end(c, p) <= c.len(),
        forall|i: int| p <= i < digit_end(c, p) ==> (#[trigger] digit_value(c[i].1)) is Some,
        digit_end(c, p) < c.len() ==> digit_value(c[digit_end(c, p)].1) is None,
    decreases c.len() - p,
{
    if p < c.len() && digit_value(c[p].1) is Some {
        lemma_digit_run(c, p + 1);
    }
}

/// A longer run of digits spells a value at least as large.
pub proof fn lemma_decimal_grows(c: Seq<(usize, char)>, p: int, m: int, n: int)
    requires
        0 <= p <= m <= n <= c.len(),
        forall|i: int| p <= i < n ==> (#[trigger] digit_value(c[i].1)) is Some,
    ensures
        0 <= decimal_value(chars_between(c, p, m)) <= decimal_value(chars_between(c, p, n)),
    decreases n - p,
{
    if n > p {
        let s = chars_between(c, p, n);
        assert(s.drop_last() =~= chars_between(c, p, n - 1));
        assert(s.last() == c[n - 1].1);
        assert(digit_value(c[n - 1].1) is Some);
        if m < n {
            lemma_decimal_grows(c, p, m, n - 1);
        } else {
            lemma_decimal_grows(c, p, n - 1, n - 1);
        }
        let d = digit_value(s.last()).unwrap();
        assert(d >= 0);
    } else {
        assert(chars_between(c, p, m).len() == 0);
    }
}


/// The digits from `p` on spell a value a `usize` holds.
pub open spec fn digits_fit(c: Seq<(usize, char)>, p: int) -> bool {
    decimal_value(chars_between(c, p, digit_end(c, p))) <= usize::MAX
}

/// The braced quantifier at `q` is well formed and within `max_repeat`: a
/// lower bound, then `}` or `,` with an optional upper bound and `}`, each
/// bound fitting a `usize`, the bounds in order, and the largest bound
/// that is given at most `max_repeat`.
pub open spec fn brace_ok(c: Seq<(usize, char)>, q: int, max_repeat: usize) -> bool {
    let d1 = digit_end(c, q + 1);
    &&& d1 > q + 1
    &&& digits_fit(c, q + 1)
    &&& d1 < c.len()
    &&& (c[d1].1 == '}' || (c[d1].1 == ',' && digits_fit(c, d1 + 1) && digit_end(c, d1 + 1) < c.len() && c[digit_end(
        c,
        d1 + 1,
    )].1 == '}'))
    &&& match brace_max(c, q) {
        Some(m) => brace_min(c, q) <= m && m <= max_repeat,
        None => brace_min(c, q) <= max_repeat,
    }
}

/// No second quantifier, nor a lazy or possessive suffix, follows at `s`.
pub open spec fn suffix_ok(c: Seq<(usize, char)>, s: int) -> bool {
    !(0 <= s < c.len() && (c[s].1 == '?' || c[s].1 == '+' || c[s].1 == '*' || c[s].1 == '{'))
}

/// The quantifier, if any, after an atom that ends at `q` is accepted.
pub open spec fn quant_ok(c: Seq<(usize, char)>, q: int, max_repeat: usize) -> bool {
    if !quantified(c, q) {
        true
    } else if c[q].1 == '{' {
        brace_ok(c, q, max_repeat) && suffix_ok(c, brace_end(c, q))
    } else {
        suffix_ok(c, q + 1)
    }
}

/// The atom at `p` is accepted: a group that is not a `(?` prefix and
/// holds an accepted alternation closed by `)`, an accepted class, `.`,
/// an accepted escape, an anchor, or a character of the alphabet that is
/// not a quantifier.
pub open spec fn atom_ok(c: Seq<(usize, char)>, p: int, a: Alphabet, max_repeat: usize) -> bool
    decreases c.len() - p, 0int,
{
    if p < 0 || p >= c.len() {
        false
    } else if c[p].1 == '(' {
        !(p + 1 < c.len() && c[p + 1].1 == '?') && alt_ok(c, p + 1, a, max_repeat) && alt_end(c, p + 1, a) < c.len()
    } else if c[p].1 == '[' {
        class_ok(c, class_body_start(c, p + 1), false, a)
    } else if c[p].1 == '.' {
        true
    } else if c[p].1 == '\\' {
        p + 1 < c.len() && escape_ok(c[p + 1].1, false)
    } else if c[p].1 == '^' || c[p].1 == '$' {
        true
    } else if c[p].1 == '*' || c[p].1 == '+' || c[p].1 == '?' || c[p].1 == '{' || c[p].1 == ')' {
        false
    } else {
        alphabet_has(a, c[p].1 as int)
    }
}

/// The atom at `p` and its quantifier are accepted.
pub open spec fn repeat_ok(c: Seq<(usize, char)>, p: int, a: Alphabet, max_repeat: usize) -> bool
    decreases c.len() - p, 1int,
{
    atom_ok(c, p, a, max_repeat) && quant_ok(c, atom_end(c, p, a), max_repeat)
}

/// The concatenation from `p` on is accepted.
pub open spec fn concat_ok(c: Seq<(usize, char)>, p: int, a: Alphabet, max_repeat: usize) -> bool
    decreases c.len() - p, 2int,
{
    if p < 0 || at_branch_end(c, p) {
        true
    } else {
        let r = repeat_end(c, p, a);
        if repeat_ok(c, p, a, max_repeat) {
            if p < r <= c.len() {
                concat_ok(c, r, a, max_repeat)
            } else {
                false
            }
        } else {
            false
        }
    }
}

/// The alternation from `p` on is accepted: each branch is.
pub open spec fn alt_ok(c: Seq<(usize, char)>, p: int, a: Alphabet, max_repeat: usize) -> bool
    decreases c.len() - p, 3int,
{
    if p < 0 || p > c.len() {
        false
    } else {
        let e = concat_end(c, p, a);
        if concat_ok(c, p, a, max_repeat) {
            if p <= e < c.len() && c[e].1 == '|' {
                alt_ok(c, e + 1, a, max_repeat)
            } else {
                true
            }
        } else {
            false
        }
    }
}

/// No anchor stands at an atom position in the atom at `p`.
pub open spec fn atom_anchor_free(c: Seq<(usize, char)>, p: int, a: Alphabet) -> bool
    decreases c.len() - p, 0int,
{
    if p < 0 || p >= c.len() {
        true
    } else if c[p].1 == '(' {
        alt_anchor_free(c, p + 1, a)
    } else {
        c[p].1 != '^' && c[p].1 != '$'
    }
}

/// No anchor stands at an atom position in the concatenation from `p` on.
pub open spec fn concat_anchor_free(c: Seq<(usize, char)>, p: int, a: Alphabet) -> bool
    decreases c.len() - p, 2int,
{
    if p < 0 || at_branch_end(c, p) {
        true
    } else {
        let r = repeat_end(c, p, a);
        if p < r <= c.len() {
            atom_anchor_free(c, p, a) && concat_anchor_free(c, r, a)
        } else {
            atom_anchor_free(c, p, a)
        }
    }
}

/// No anchor stands at an atom position in the alternation from `p` on.
pub open spec fn alt_anchor_free(c: Seq<(usize, char)>, p: int, a: Alphabet) -> bool
    decreases c.len() - p, 3int,
{
    if p < 0 || p > c.len() {
        true
    } else {
        let e = concat_end(c, p, a);
        if p <= e < c.len() && c[e].1 == '|' {
            concat_anchor_free(c, p, a) && alt_anchor_free(c, e + 1, a)
        } else {
            concat_anchor_free(c, p, a)
        }
    }
}

/// The whole pattern is accepted by the grammar: its alternation is, and
/// it reads to the end.
pub open spec fn pattern_ok(c: Seq<(usize, char)>, a: Alphabet, max_repeat: usize) -> bool {
    alt_ok(c, 0, a, max_repeat) && alt_end(c, 0, a) == c.len()
}

} // verus!
