//! Properties of the language relations that hold across queries and
//! across analysis engines.
use crate::analysis::{binary_verdict, empty_verdict, relation_of, BackendResult, BackendStatus, Query};
use crate::report::Verdict;
use crate::ast::{matches_expr, Expr};
use crate::nfa::Nfa;
use crate::config::Config;
use crate::parser::grammar::{alt_has, atom_has, char_table};
use crate::parser::{class_atom_has, escapable, shorthand_has};
use crate::config::{config_problem, Alphabet, ConfigError};
use crate::cli::{json_quoted, policy_spec, report_lines, FailOn};
use crate::report::{relation, Report};
use vstd::prelude::*;

verus! {

/// What a finished search may claim: a witness it returns settles `query`
/// on the two automata, and running out of states means no string does.
/// Every engine of this crate meets it on every run.
pub open spec fn sound_outcome(query: Query, left: Nfa, right: Nfa, r: BackendResult) -> bool {
    &&& r.status == BackendStatus::Found ==> (r.witness matches Some(w) && r.relation matches Some(rel) && relation_of(
        query,
        left.accepts(w@),
        right.accepts(w@),
    ) == Some(rel@))
    &&& r.status == BackendStatus::Exhausted ==> forall|w: Seq<char>|
        #[trigger] relation_of(query, left.accepts(w), right.accepts(w)) is None
}

/// Two engines never contradict each other: when both finish, they agree
/// on whether a witness exists, so a `YES` from one is never a `NO` from
/// the other.
pub proof fn lemma_engines_agree(query: Query, left: Nfa, right: Nfa, a: BackendResult, b: BackendResult)
    requires
        sound_outcome(query, left, right, a),
        sound_outcome(query, left, right, b),
    ensures
        !(a.status == BackendStatus::Found && b.status == BackendStatus::Exhausted),
        !(a.status == BackendStatus::Exhausted && b.status == BackendStatus::Found),
{
    if a.status == BackendStatus::Found && b.status == BackendStatus::Exhausted {
        let w = a.witness->0;
        assert(relation_of(query, left.accepts(w@), right.accepts(w@)) is None);
    }
    if a.status == BackendStatus::Exhausted && b.status == BackendStatus::Found {
        let w = b.witness->0;
        assert(relation_of(query, left.accepts(w@), right.accepts(w@)) is None);
    }
}

/// No string separates the languages exactly when each is included in the
/// other.
pub proof fn lemma_equivalence_is_mutual_inclusion(left: Nfa, right: Nfa)
    ensures
        (forall|w: Seq<char>| #[trigger] relation_of(Query::Equivalent, left.accepts(w), right.accepts(w)) is None) <==> (
        (forall|w: Seq<char>| #[trigger] relation_of(Query::Includes, left.accepts(w), right.accepts(w)) is None) && (forall|
            w: Seq<char>,
        | #[trigger] relation_of(Query::Includes, right.accepts(w), left.accepts(w)) is None)),
{
    if forall|w: Seq<char>| #[trigger] relation_of(Query::Equivalent, left.accepts(w), right.accepts(w)) is None {
        assert forall|w: Seq<char>| #[trigger] relation_of(Query::Includes, left.accepts(w), right.accepts(w)) is None by {
            assert(relation_of(Query::Equivalent, left.accepts(w), right.accepts(w)) is None);
        }
        assert forall|w: Seq<char>| #[trigger] relation_of(Query::Includes, right.accepts(w), left.accepts(w)) is None by {
            assert(relation_of(Query::Equivalent, left.accepts(w), right.accepts(w)) is None);
        }
    }
    if (forall|w: Seq<char>| #[trigger] relation_of(Query::Includes, left.accepts(w), right.accepts(w)) is None) && (forall|
        w: Seq<char>,
    | #[trigger] relation_of(Query::Includes, right.accepts(w), left.accepts(w)) is None) {
        assert forall|w: Seq<char>| #[trigger] relation_of(Query::Equivalent, left.accepts(w), right.accepts(w)) is None by {
            assert(relation_of(Query::Includes, left.accepts(w), right.accepts(w)) is None);
            assert(relation_of(Query::Includes, right.accepts(w), left.accepts(w)) is None);
        }
    }
}

/// A string settles overlap for `(left, right)` exactly when it settles it
/// for `(right, left)`, with the same relation.
pub proof fn lemma_overlap_is_symmetric(left: Nfa, right: Nfa, w: Seq<char>)
    ensures
        relation_of(Query::Overlap, left.accepts(w), right.accepts(w)) == relation_of(
            Query::Overlap,
            right.accepts(w),
            left.accepts(w),
        ),
{
}

/// A language is included in, and equivalent to, itself: no string
/// settles inclusion or equivalence between an automaton and itself.
pub proof fn lemma_reflexive(nfa: Nfa, w: Seq<char>)
    ensures
        relation_of(Query::Includes, nfa.accepts(w), nfa.accepts(w)) is None,
        relation_of(Query::Equivalent, nfa.accepts(w), nfa.accepts(w)) is None,
{
}

/// Inclusion is transitive.
pub proof fn lemma_inclusion_transitive(a: Nfa, b: Nfa, c: Nfa)
    requires
        forall|w: Seq<char>| #[trigger] relation_of(Query::Includes, a.accepts(w), b.accepts(w)) is None,
        forall|w: Seq<char>| #[trigger] relation_of(Query::Includes, b.accepts(w), c.accepts(w)) is None,
    ensures
        forall|w: Seq<char>| #[trigger] relation_of(Query::Includes, a.accepts(w), c.accepts(w)) is None,
{
    assert forall|w: Seq<char>| #[trigger] relation_of(Query::Includes, a.accepts(w), c.accepts(w)) is None by {
        assert(relation_of(Query::Includes, a.accepts(w), b.accepts(w)) is None);
        assert(relation_of(Query::Includes, b.accepts(w), c.accepts(w)) is None);
    }
}

/// The relation a binary query asks about holds between the two languages.
pub open spec fn relation_holds(query: Query, left: Nfa, right: Nfa) -> bool {
    match query {
        Query::Overlap => exists|w: Seq<char>| #[trigger] left.accepts(w) && right.accepts(w),
        Query::Includes => forall|w: Seq<char>| #[trigger] left.accepts(w) ==> right.accepts(w),
        Query::Equivalent => forall|w: Seq<char>| #[trigger] left.accepts(w) == right.accepts(w),
        Query::Empty => forall|w: Seq<char>| !#[trigger] left.accepts(w),
    }
}

/// A finished binary search gives an exact answer: `YES` exactly when the
/// relation holds and `NO` exactly when it fails; a search stopped by the
/// state or time limit answers `UNKNOWN`, never a guessed verdict.
pub proof fn lemma_binary_verdict_exact(query: Query, left: Nfa, right: Nfa, r: BackendResult)
    requires
        query != Query::Empty,
        sound_outcome(query, left, right, r),
    ensures
        binary_verdict(query, r.status) == Verdict::Yes ==> relation_holds(query, left, right),
        binary_verdict(query, r.status) == Verdict::No ==> !relation_holds(query, left, right),
        (r.status == BackendStatus::StateLimit || r.status == BackendStatus::Timeout) ==> binary_verdict(query, r.status)
            == Verdict::Unknown,
{
    if r.status == BackendStatus::Found {
        let w = r.witness->0;
        assert(relation_of(query, left.accepts(w@), right.accepts(w@)) is Some);
        if query == Query::Overlap {
            assert(left.accepts(w@) && right.accepts(w@));
        } else if query == Query::Includes {
            assert(!(left.accepts(w@) ==> right.accepts(w@)));
        } else {
            assert(left.accepts(w@) != right.accepts(w@));
        }
    }
    if r.status == BackendStatus::Exhausted {
        if query == Query::Overlap {
            assert forall|w: Seq<char>| !(#[trigger] left.accepts(w) && right.accepts(w)) by {
                assert(relation_of(query, left.accepts(w), right.accepts(w)) is None);
            }
        } else if query == Query::Includes {
            assert forall|w: Seq<char>| #[trigger] left.accepts(w) implies right.accepts(w) by {
                assert(relation_of(query, left.accepts(w), right.accepts(w)) is None);
            }
        } else {
            assert forall|w: Seq<char>| #[trigger] left.accepts(w) == right.accepts(w) by {
                assert(relation_of(query, left.accepts(w), right.accepts(w)) is None);
            }
        }
    }
}

/// A finished emptiness search gives an exact answer: `YES` exactly when
/// no string is accepted, `NO` when one is; a search stopped by a limit
/// answers `UNKNOWN`.
pub proof fn lemma_empty_verdict_exact(nfa: Nfa, r: BackendResult)
    requires
        r.status == BackendStatus::Found ==> (r.witness matches Some(w) && nfa.accepts(w@)),
        r.status == BackendStatus::Exhausted ==> forall|w: Seq<char>| !#[trigger] nfa.accepts(w),
    ensures
        empty_verdict(r.status) == Verdict::Yes ==> forall|w: Seq<char>| !#[trigger] nfa.accepts(w),
        empty_verdict(r.status) == Verdict::No ==> exists|w: Seq<char>| #[trigger] nfa.accepts(w),
        (r.status == BackendStatus::StateLimit || r.status == BackendStatus::Timeout) ==> empty_verdict(r.status)
            == Verdict::Unknown,
{
    if r.status == BackendStatus::Found {
        let w = r.witness->0;
        assert(nfa.accepts(w@));
    }
}

/// The witness of a binary search is a shortest string that settles the
/// query: no shorter string settles it.
pub open spec fn shortest_outcome(query: Query, left: Nfa, right: Nfa, r: BackendResult) -> bool {
    r.status == BackendStatus::Found ==> (r.witness matches Some(w) && forall|u: Seq<char>|
        u.len() < w@.len() ==> #[trigger] relation_of(query, left.accepts(u), right.accepts(u)) is None)
}

/// Engines that each report a shortest witness for the same query report
/// witnesses of the same length.
pub proof fn lemma_witness_lengths_agree(query: Query, left: Nfa, right: Nfa, a: BackendResult, b: BackendResult)
    requires
        sound_outcome(query, left, right, a),
        shortest_outcome(query, left, right, a),
        sound_outcome(query, left, right, b),
        shortest_outcome(query, left, right, b),
        a.status == BackendStatus::Found,
        b.status == BackendStatus::Found,
    ensures
        a.witness->0@.len() == b.witness->0@.len(),
{
    let wa = a.witness->0;
    let wb = b.witness->0;
    if wa@.len() < wb@.len() {
        assert(relation_of(query, left.accepts(wa@), right.accepts(wa@)) is None);
    }
    if wb@.len() < wa@.len() {
        assert(relation_of(query, left.accepts(wb@), right.accepts(wb@)) is None);
    }
}

/// Engines that each report a shortest accepted string for the same
/// emptiness query report strings of the same length.
pub proof fn lemma_empty_witness_lengths_agree(nfa: Nfa, a: BackendResult, b: BackendResult)
    requires
        a.witness matches Some(w) && nfa.accepts(w@) && forall|u: Seq<char>| u.len() < w@.len() ==> !#[trigger] nfa.accepts(u),
        b.witness matches Some(w) && nfa.accepts(w@) && forall|u: Seq<char>| u.len() < w@.len() ==> !#[trigger] nfa.accepts(u),
    ensures
        a.witness->0@.len() == b.witness->0@.len(),
{
    let wa = a.witness->0;
    let wb = b.witness->0;
    if wa@.len() < wb@.len() {
        assert(!nfa.accepts(wa@));
    }
    if wb@.len() < wa@.len() {
        assert(!nfa.accepts(wb@));
    }
}

/// The relation a query asks about, between the languages of two
/// expressions (for emptiness, of the left one).
pub open spec fn expr_relation_holds(query: Query, left: Expr, right: Expr) -> bool {
    match query {
        Query::Overlap => exists|w: Seq<char>| #[trigger] matches_expr(left, w) && matches_expr(right, w),
        Query::Includes => forall|w: Seq<char>| #[trigger] matches_expr(left, w) ==> matches_expr(right, w),
        Query::Equivalent => forall|w: Seq<char>| #[trigger] matches_expr(left, w) == matches_expr(right, w),
        Query::Empty => forall|w: Seq<char>| !#[trigger] matches_expr(left, w),
    }
}

/// A finished search over the automata built from two expressions answers
/// for the expressions themselves: `YES` exactly when the relation holds
/// between their languages and `NO` exactly when it fails; its witness
/// settles the query between the expressions as the relation it carries
/// says, and when the engine reports shortest witnesses no shorter string
/// settles it.
pub proof fn lemma_expr_verdict_exact(query: Query, le: Expr, re: Expr, left: Nfa, right: Nfa, r: BackendResult)
    requires
        query != Query::Empty,
        sound_outcome(query, left, right, r),
        forall|w: Seq<char>| #[trigger] left.accepts(w) == matches_expr(le, w),
        forall|w: Seq<char>| #[trigger] right.accepts(w) == matches_expr(re, w),
    ensures
        binary_verdict(query, r.status) == Verdict::Yes ==> expr_relation_holds(query, le, re),
        binary_verdict(query, r.status) == Verdict::No ==> !expr_relation_holds(query, le, re),
        r.status == BackendStatus::Found ==> (r.witness matches Some(w) && r.relation matches Some(rel) && relation_of(
            query,
            matches_expr(le, w@),
            matches_expr(re, w@),
        ) == Some(rel@)),
        shortest_outcome(query, left, right, r) && r.status == BackendStatus::Found ==> (r.witness matches Some(w)
            && forall|u: Seq<char>|
            u.len() < w@.len() ==> #[trigger] relation_of(query, matches_expr(le, u), matches_expr(re, u)) is None),
{
    lemma_binary_verdict_exact(query, left, right, r);
    match query {
        Query::Overlap => {
            if relation_holds(query, left, right) {
                let w = choose|w: Seq<char>| #[trigger] left.accepts(w) && right.accepts(w);
                assert(matches_expr(le, w) && matches_expr(re, w));
            }
            if expr_relation_holds(query, le, re) {
                let w = choose|w: Seq<char>| #[trigger] matches_expr(le, w) && matches_expr(re, w);
                assert(left.accepts(w) && right.accepts(w));
            }
        },
        Query::Includes => {
            if relation_holds(query, left, right) {
                assert forall|w: Seq<char>| #[trigger] matches_expr(le, w) implies matches_expr(re, w) by {
                    assert(left.accepts(w) ==> right.accepts(w));
                }
            }
            if expr_relation_holds(query, le, re) {
                assert forall|w: Seq<char>| #[trigger] left.accepts(w) implies right.accepts(w) by {
                    assert(matches_expr(le, w) ==> matches_expr(re, w));
                }
            }
        },
        Query::Equivalent => {
            if relation_holds(query, left, right) {
                assert forall|w: Seq<char>| #[trigger] matches_expr(le, w) == matches_expr(re, w) by {
                    assert(left.accepts(w) == right.accepts(w));
                }
            }
            if expr_relation_holds(query, le, re) {
                assert forall|w: Seq<char>| #[trigger] left.accepts(w) == right.accepts(w) by {
                    assert(matches_expr(le, w) == matches_expr(re, w));
                }
            }
        },
        Query::Empty => {},
    }
    if r.status == BackendStatus::Found {
        let w = r.witness->0;
        assert(left.accepts(w@) == matches_expr(le, w@));
        assert(right.accepts(w@) == matches_expr(re, w@));
        if shortest_outcome(query, left, right, r) {
            assert forall|u: Seq<char>| u.len() < w@.len() implies #[trigger] relation_of(
                query,
                matches_expr(le, u),
                matches_expr(re, u),
            ) is None by {
                assert(left.accepts(u) == matches_expr(le, u));
                assert(right.accepts(u) == matches_expr(re, u));
                assert(relation_of(query, left.accepts(u), right.accepts(u)) is None);
            }
        }
    }
}

/// A finished emptiness search over the automaton built from an expression
/// answers for the expression: `YES` exactly when it matches nothing, `NO`
/// with a string it matches, a shortest one when the engine reports
/// shortest strings.
pub proof fn lemma_expr_empty_exact(e: Expr, nfa: Nfa, r: BackendResult)
    requires
        r.status == BackendStatus::Found ==> (r.witness matches Some(w) && nfa.accepts(w@)),
        r.status == BackendStatus::Exhausted ==> forall|w: Seq<char>| !#[trigger] nfa.accepts(w),
        forall|w: Seq<char>| #[trigger] nfa.accepts(w) == matches_expr(e, w),
    ensures
        empty_verdict(r.status) == Verdict::Yes ==> expr_relation_holds(Query::Empty, e, e),
        empty_verdict(r.status) == Verdict::No ==> !expr_relation_holds(Query::Empty, e, e),
        r.status == BackendStatus::Found ==> (r.witness matches Some(w) && matches_expr(e, w@)),
        (r.status == BackendStatus::Found ==> (r.witness matches Some(w) && forall|u: Seq<char>|
            u.len() < w@.len() ==> !#[trigger] nfa.accepts(u))) ==> (r.status == BackendStatus::Found ==> (r.witness matches Some(
            w,
        ) && forall|u: Seq<char>| u.len() < w@.len() ==> !#[trigger] matches_expr(e, u))),
{
    lemma_empty_verdict_exact(nfa, r);
    if r.status == BackendStatus::Found {
        let w = r.witness->0;
        assert(nfa.accepts(w@) == matches_expr(e, w@));
        if forall|u: Seq<char>| u.len() < w@.len() ==> !#[trigger] nfa.accepts(u) {
            assert forall|u: Seq<char>| u.len() < w@.len() implies !#[trigger] matches_expr(e, u) by {
                assert(nfa.accepts(u) == matches_expr(e, u));
            }
        }
    }
    if r.status == BackendStatus::Exhausted {
        assert forall|w: Seq<char>| !#[trigger] matches_expr(e, w) by {
            assert(nfa.accepts(w) == matches_expr(e, w));
        }
    }
}


/// The language of a pattern holds `w`: the pattern's text, read by the
/// grammar of the supported subset under `config`, matches `w`.
pub open spec fn pattern_matches(pattern: Seq<char>, config: Config, w: Seq<char>) -> bool {
    alt_has(char_table(pattern), 0, config.alphabet, config.dot_matches_newline, w)
}

/// The parser accepts `pattern`: the grammar reads all of it, every part is
/// well formed and within the limits of `config`, and no anchor stands
/// where the parser would refuse one.
pub open spec fn pattern_accepted(pattern: Seq<char>, config: Config) -> bool {
    &&& crate::parser::grammar::pattern_ok(char_table(pattern), config.alphabet, config.max_repeat)
    &&& crate::parser::grammar::alt_anchor_free(char_table(pattern), 0, config.alphabet)
}

/// `query` holds between the languages of two patterns.
pub open spec fn pattern_relation_holds(query: Query, left: Seq<char>, right: Seq<char>, config: Config) -> bool {
    match query {
        Query::Overlap => exists|w: Seq<char>| #[trigger] pattern_matches(left, config, w) && pattern_matches(right, config, w),
        Query::Includes => forall|w: Seq<char>| #[trigger] pattern_matches(left, config, w) ==> pattern_matches(right, config, w),
        Query::Equivalent => forall|w: Seq<char>| #[trigger] pattern_matches(left, config, w) == pattern_matches(right, config, w),
        Query::Empty => forall|w: Seq<char>| !#[trigger] pattern_matches(left, config, w),
    }
}

/// Expressions that match what two patterns denote stand in a relation
/// exactly when the patterns do.
pub proof fn lemma_pattern_relation(query: Query, le: Expr, re: Expr, lp: Seq<char>, rp: Seq<char>, config: Config)
    requires
        forall|w: Seq<char>| #[trigger] matches_expr(le, w) == pattern_matches(lp, config, w),
        forall|w: Seq<char>| #[trigger] matches_expr(re, w) == pattern_matches(rp, config, w),
    ensures
        expr_relation_holds(query, le, re) == pattern_relation_holds(query, lp, rp, config),
{
    match query {
        Query::Overlap => {
            if expr_relation_holds(query, le, re) {
                let w = choose|w: Seq<char>| #[trigger] matches_expr(le, w) && matches_expr(re, w);
                assert(pattern_matches(lp, config, w) && pattern_matches(rp, config, w));
            }
            if pattern_relation_holds(query, lp, rp, config) {
                let w = choose|w: Seq<char>| #[trigger] pattern_matches(lp, config, w) && pattern_matches(rp, config, w);
                assert(matches_expr(le, w) && matches_expr(re, w));
            }
        },
        Query::Includes => {
            if expr_relation_holds(query, le, re) {
                assert forall|w: Seq<char>| #[trigger] pattern_matches(lp, config, w) implies pattern_matches(rp, config, w) by {
                    assert(matches_expr(le, w));
                }
            }
            if pattern_relation_holds(query, lp, rp, config) {
                assert forall|w: Seq<char>| #[trigger] matches_expr(le, w) implies matches_expr(re, w) by {
                    assert(pattern_matches(lp, config, w));
                }
            }
        },
        Query::Equivalent => {
            if expr_relation_holds(query, le, re) {
                assert forall|w: Seq<char>| #[trigger] pattern_matches(lp, config, w) == pattern_matches(rp, config, w) by {
                    assert(matches_expr(le, w) == matches_expr(re, w));
                }
            }
            if pattern_relation_holds(query, lp, rp, config) {
                assert forall|w: Seq<char>| #[trigger] matches_expr(le, w) == matches_expr(re, w) by {
                    assert(pattern_matches(lp, config, w) == pattern_matches(rp, config, w));
                }
            }
        },
        Query::Empty => {
            if expr_relation_holds(query, le, re) {
                assert forall|w: Seq<char>| !#[trigger] pattern_matches(lp, config, w) by {
                    assert(!matches_expr(le, w));
                }
            }
            if pattern_relation_holds(query, lp, rp, config) {
                assert forall|w: Seq<char>| !#[trigger] matches_expr(le, w) by {
                    assert(!pattern_matches(lp, config, w));
                }
            }
        },
    }
}

/// Overlap between patterns does not depend on their order.
pub proof fn lemma_pattern_overlap_symmetric(left: Seq<char>, right: Seq<char>, config: Config)
    ensures
        pattern_relation_holds(Query::Overlap, left, right, config) == pattern_relation_holds(Query::Overlap, right, left, config),
{
    if pattern_relation_holds(Query::Overlap, left, right, config) {
        let w = choose|w: Seq<char>| #[trigger] pattern_matches(left, config, w) && pattern_matches(right, config, w);
        assert(pattern_matches(right, config, w) && pattern_matches(left, config, w));
    }
    if pattern_relation_holds(Query::Overlap, right, left, config) {
        let w = choose|w: Seq<char>| #[trigger] pattern_matches(right, config, w) && pattern_matches(left, config, w);
        assert(pattern_matches(left, config, w) && pattern_matches(right, config, w));
    }
}

/// Two patterns are equivalent exactly when each includes the other.
pub proof fn lemma_pattern_equivalence_is_mutual_inclusion(left: Seq<char>, right: Seq<char>, config: Config)
    ensures
        pattern_relation_holds(Query::Equivalent, left, right, config) == (pattern_relation_holds(
            Query::Includes,
            left,
            right,
            config,
        ) && pattern_relation_holds(Query::Includes, right, left, config)),
{
    if pattern_relation_holds(Query::Includes, left, right, config) && pattern_relation_holds(Query::Includes, right, left, config) {
        assert forall|w: Seq<char>| #[trigger] pattern_matches(left, config, w) == pattern_matches(right, config, w) by {
            if pattern_matches(left, config, w) {
                assert(pattern_matches(right, config, w));
            }
            if pattern_matches(right, config, w) {
                assert(pattern_matches(left, config, w));
            }
        }
    }
    if pattern_relation_holds(Query::Equivalent, left, right, config) {
        assert forall|w: Seq<char>| #[trigger] pattern_matches(left, config, w) implies pattern_matches(right, config, w) by {
            assert(pattern_matches(left, config, w) == pattern_matches(right, config, w));
        }
        assert forall|w: Seq<char>| #[trigger] pattern_matches(right, config, w) implies pattern_matches(left, config, w) by {
            assert(pattern_matches(left, config, w) == pattern_matches(right, config, w));
        }
    }
}

/// In any pattern, an atom written as a backslash followed by `n`, `r`,
/// `t` or `0` stands for exactly one character: line feed (U+000A),
/// carriage return (U+000D), tab (U+0009) or NUL (U+0000); a backslash
/// followed by a metacharacter stands for that metacharacter.
pub proof fn lemma_escape_atoms(s: Seq<char>, p: int, a: Alphabet, dot: bool, w: Seq<char>)
    requires
        0 <= p,
        p + 1 < s.len(),
        s[p] == '\\',
    ensures
        s[p + 1] == 'n' ==> (atom_has(char_table(s), p, a, dot, w) <==> (w.len() == 1 && w[0] as int == 0x0A)),
        s[p + 1] == 'r' ==> (atom_has(char_table(s), p, a, dot, w) <==> (w.len() == 1 && w[0] as int == 0x0D)),
        s[p + 1] == 't' ==> (atom_has(char_table(s), p, a, dot, w) <==> (w.len() == 1 && w[0] as int == 0x09)),
        s[p + 1] == '0' ==> (atom_has(char_table(s), p, a, dot, w) <==> (w.len() == 1 && w[0] as int == 0x00)),
        escapable(s[p + 1]) ==> (atom_has(char_table(s), p, a, dot, w) <==> w == seq![s[p + 1]]),
{
    let c = char_table(s);
    assert(c[p].1 == '\\');
    assert(c[p + 1].1 == s[p + 1]);
    if w.len() == 1 {
        assert(w =~= seq![w[0]]);
    }
}

/// The shorthand classes: `\d` holds the ASCII digits (U+0030..U+0039),
/// `\s` the ASCII whitespace tab, line feed, vertical tab, form feed,
/// carriage return and space, `\w` the digits, ASCII letters and `_`;
/// every digit is a word character; and each upper-case shorthand holds
/// exactly the characters of the alphabet its lower-case one does not.
pub proof fn lemma_shorthand_classes(a: Alphabet, v: int)
    ensures
        shorthand_has('d', a, v) <==> 0x30 <= v <= 0x39,
        shorthand_has('s', a, v) <==> (0x09 <= v <= 0x0D || v == 0x20),
        shorthand_has('w', a, v) <==> (0x30 <= v <= 0x39 || 0x41 <= v <= 0x5A || 0x61 <= v <= 0x7A || v == 0x5F),
        shorthand_has('d', a, v) ==> shorthand_has('w', a, v),
        shorthand_has('D', a, v) <==> (crate::config::alphabet_has(a, v) && !shorthand_has('d', a, v)),
        shorthand_has('W', a, v) <==> (crate::config::alphabet_has(a, v) && !shorthand_has('w', a, v)),
        shorthand_has('S', a, v) <==> (crate::config::alphabet_has(a, v) && !shorthand_has('s', a, v)),
{
}

/// Inside a bracket class, an item written as a backslash followed by
/// `n`, `r`, `t`, `0` or `b` holds exactly one character: line feed,
/// carriage return, tab, NUL or backspace (U+0008).
pub proof fn lemma_class_escapes(s: Seq<char>, p: int, saw_item: bool, a: Alphabet, v: int)
    requires
        0 <= p,
        p + 1 < s.len(),
        s[p] == '\\',
    ensures
        s[p + 1] == 'n' ==> (class_atom_has(char_table(s), p, saw_item, a, v) <==> v == 0x0A),
        s[p + 1] == 'r' ==> (class_atom_has(char_table(s), p, saw_item, a, v) <==> v == 0x0D),
        s[p + 1] == 't' ==> (class_atom_has(char_table(s), p, saw_item, a, v) <==> v == 0x09),
        s[p + 1] == '0' ==> (class_atom_has(char_table(s), p, saw_item, a, v) <==> v == 0x00),
        s[p + 1] == 'b' ==> (class_atom_has(char_table(s), p, saw_item, a, v) <==> v == 0x08),
        escapable(s[p + 1]) ==> (class_atom_has(char_table(s), p, saw_item, a, v) <==> v == s[p + 1] as int),
{
    let c = char_table(s);
    assert(c[p].1 == '\\');
    assert(c[p + 1].1 == s[p + 1]);
}

/// The witness line of a report names where its witness lies. For an
/// equivalence or inclusion report whose witness is matched by the left
/// pattern only (`in_left` and not `in_right`), the line says "left
/// only"; for an equivalence witness matched by the right pattern only, it
/// says "right only"; an overlap witness is "the shortest witness". The
/// witness follows as a JSON string literal.
pub proof fn lemma_witness_line_names_side(report: Report, show_stats: bool, in_left: bool, in_right: bool)
    requires
        report.witness matches Some(w) && relation_of(report.query, in_left, in_right) == Some(w.relation@),
    ensures
        report.witness matches Some(w) && report_lines(report, show_stats)[1] == if report.query == Query::Overlap {
            "shortest witness: "@ + json_quoted(w.value@)
        } else if in_left && !in_right {
            "witness in left only: "@ + json_quoted(w.value@)
        } else {
            "witness in right only: "@ + json_quoted(w.value@)
        },
        report.query == Query::Equivalent || report.query == Query::Includes ==> (in_left != in_right),
{
    reveal_strlit("left_only");
    reveal_strlit("right_only");
    reveal_strlit("in_both");
    assert("left_only"@[0] != "right_only"@[0]);
    let w = report.witness->0;
    let lines = report_lines(report, show_stats);
    assert(lines[1] == crate::cli::witness_line(report.query, w.relation@, json_quoted(w.value@)));
}

/// A text report opens with the verdict's name, and an emptiness report
/// with a witness names it as a string of the language.
pub proof fn lemma_report_opening(report: Report, show_stats: bool)
    ensures
        report_lines(report, show_stats)[0] == match report.verdict {
            Verdict::Yes => "YES"@,
            Verdict::No => "NO"@,
            Verdict::Unknown => "UNKNOWN"@,
            Verdict::Unsupported => "UNSUPPORTED"@,
        },
        report.query == Query::Empty ==> (report.witness matches Some(w) ==> report_lines(report, show_stats)[1]
            == "witness in language: "@ + json_quoted(w.value@)),
{
}

/// The CI policies agree with what they are named for: no policy fails a
/// `YES` run; `no` fails every `NO` run and `unknown` never does; the two
/// never fail the same run; `non-yes` fails exactly the runs that `no` or
/// `unknown` fails; and `never` fails nothing.
pub proof fn lemma_fail_on_policies(verdict: Verdict)
    ensures
        forall|p: FailOn| !#[trigger] policy_spec(p, Verdict::Yes),
        policy_spec(FailOn::No, Verdict::No),
        !policy_spec(FailOn::Unknown, Verdict::No),
        !(policy_spec(FailOn::No, verdict) && policy_spec(FailOn::Unknown, verdict)),
        policy_spec(FailOn::NonYes, verdict) == (policy_spec(FailOn::No, verdict) || policy_spec(FailOn::Unknown, verdict)),
        policy_spec(FailOn::NonYes, verdict) == (verdict != Verdict::Yes),
        !policy_spec(FailOn::Never, verdict),
{
}

/// The timeout is refused for being zero and for nothing else: a
/// configuration refused for its timeout has timeout 0, and changing a
/// positive timeout to any other positive timeout changes nothing in what
/// `validate` decides. A configuration with an exit code in 1..=255 and
/// positive limits and timeout has no problem.
pub proof fn lemma_timeout_refused_only_at_zero(config: Config, other: u64)
    requires
        config.timeout_ms > 0,
        other > 0,
    ensures
        config_problem(config) == config_problem(Config { timeout_ms: other, ..config }),
        config_problem(Config { timeout_ms: 0, ..config }) matches Some(e) && (config_problem(config) is None
            ==> e == ConfigError::InvalidTimeout),
        config_problem(config) != Some(ConfigError::InvalidTimeout),
        (1 <= config.ci_exit_code <= 255 && config.max_product_states > 0 && config.max_repeat > 0) ==> config_problem(config) is None,
{
}

} // verus!
