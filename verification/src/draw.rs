//! Graphviz renderings of the automata of a pattern: its Thompson NFA, its
//! subset-construction DFA, or that DFA minimized.
use crate::analysis::BackendStatus;
use crate::charset::label::{canonical_of, dot_label};
use crate::charset::{in_ivs, ivs_wf, lemma_canonical, CharSet};
use crate::config::{Alphabet, Config};
use crate::minimize::{Dfa, DfaState, DEAD};
use crate::nfa::{Nfa, State};
use crate::parser::FrontendError;
use crate::text::{char_text, decimal, display_u64, display_usize};
use crate::ast::{expr_wf, matches_expr, Expr};
use vstd::prelude::*;

verus! {

/// Which automaton to draw.
#[derive(Clone, Copy, Debug, PartialEq, Eq, Structural)]
pub enum DrawKind {
    Nfa,
    Dfa,
    Minimized,
}

pub open spec fn kind_name(kind: DrawKind) -> Seq<char> {
    match kind {
        DrawKind::Nfa => "nfa"@,
        DrawKind::Dfa => "dfa"@,
        DrawKind::Minimized => "minimized"@,
    }
}

pub open spec fn kind_title(kind: DrawKind) -> Seq<char> {
    match kind {
        DrawKind::Nfa => "NFA"@,
        DrawKind::Dfa => "DFA"@,
        DrawKind::Minimized => "Minimized DFA"@,
    }
}

impl DrawKind {
    /// The kind's name on the command line.
    pub fn as_str(self) -> (r: &'static str)
        ensures
            r@ == kind_name(self),
    {
        proof {
            reveal_strlit("nfa");
            reveal_strlit("dfa");
            reveal_strlit("minimized");
        }
        match self {
            Self::Nfa => "nfa",
            Self::Dfa => "dfa",
            Self::Minimized => "minimized",
        }
    }

    /// The kind's name in a graph caption.
    pub fn title(self) -> (r: &'static str)
        ensures
            r@ == kind_title(self),
    {
        proof {
            reveal_strlit("NFA");
            reveal_strlit("DFA");
            reveal_strlit("Minimized DFA");
        }
        match self {
            Self::Nfa => "NFA",
            Self::Dfa => "DFA",
            Self::Minimized => "Minimized DFA",
        }
    }
}

/// Why a drawing could not be made.
#[derive(Debug)]
pub enum DrawError {
    /// The pattern was refused.
    Input(FrontendError),
    /// Determinization or minimization hit a limit.
    Limit(String),
    /// A file or the renderer's input could not be written.
    Io { path: String, message: String },
    /// Graphviz `dot` is not installed.
    DotMissing,
    /// Graphviz `dot` reported failure.
    DotFailed { code: String, stderr: String },
}

/// The escaped body of a DOT string: `"`, `\`, newline and carriage return
/// are written with a backslash.
pub open spec fn dot_escaped(s: Seq<char>) -> Seq<char>
    decreases s.len(),
{
    if s.len() == 0 {
        Seq::empty()
    } else {
        let c = s.last();
        dot_escaped(s.drop_last()) + if c == '"' {
            seq!['\\', '"']
        } else if c == '\\' {
            seq!['\\', '\\']
        } else if c == '\n' {
            seq!['\\', 'n']
        } else if c == '\r' {
            seq!['\\', 'r']
        } else {
            seq![c]
        }
    }
}

/// A DOT string literal holding `s`.
pub open spec fn dot_quoted(s: Seq<char>) -> Seq<char> {
    seq!['"'] + dot_escaped(s) + seq!['"']
}

/// Quote `s` as a DOT string literal.
pub fn quote_dot(s: &str) -> (r: String)
    ensures
        r@ == dot_quoted(s@),
{
    let chars = crate::nfa::str_chars(s);
    let mut out = char_text('"');
    let mut i: usize = 0;
    while i < chars.len()
        invariant
            chars@ == s@,
            i <= chars@.len(),
            out@ == seq!['"'] + dot_escaped(s@.subrange(0, i as int)),
        decreases chars@.len() - i,
    {
        let ch = chars[i];
        proof {
            let next = s@.subrange(0, i + 1);
            assert(next.drop_last() =~= s@.subrange(0, i as int));
            assert(next.last() == ch);
        }
        if ch == '"' {
            out.append(char_text('\\').as_str());
            out.append(char_text('"').as_str());
        } else if ch == '\\' {
            out.append(char_text('\\').as_str());
            out.append(char_text('\\').as_str());
        } else if ch == '\n' {
            out.append(char_text('\\').as_str());
            out.append(char_text('n').as_str());
        } else if ch == '\r' {
            out.append(char_text('\\').as_str());
            out.append(char_text('r').as_str());
        } else {
            out.append(char_text(ch).as_str());
        }
        proof {
            assert(out@ =~= seq!['"'] + dot_escaped(s@.subrange(0, i + 1)));
        }
        i += 1;
    }
    out.append(char_text('"').as_str());
    proof {
        assert(s@.subrange(0, i as int) =~= s@);
    }
    out
}

/// The members of a subset, comma-separated, without the braces.
pub open spec fn members_text(m: Seq<usize>) -> Seq<char>
    decreases m.len(),
{
    if m.len() == 0 {
        Seq::empty()
    } else if m.len() == 1 {
        decimal(m[0] as nat)
    } else {
        members_text(m.drop_last()) + ","@ + decimal(m.last() as nat)
    }
}

/// `∅` for no members, else `{a,b,...}`.
pub open spec fn subset_text(m: Seq<usize>) -> Seq<char> {
    if m.len() == 0 {
        "∅"@
    } else {
        "{"@ + members_text(m) + "}"@
    }
}

/// Write the NFA states a DFA state stands for.
pub fn format_subset(members: &[usize]) -> (r: String)
    ensures
        r@ == subset_text(members@),
{
    proof {
        reveal_strlit("∅");
        reveal_strlit("{");
        reveal_strlit("}");
        reveal_strlit(",");
    }
    if members.len() == 0 {
        return "∅".to_owned();
    }
    let mut inner = display_usize(members[0]);
    let mut i: usize = 1;
    proof {
        assert(members@.subrange(0, 1).drop_last() =~= Seq::<usize>::empty());
    }
    while i < members.len()
        invariant
            1 <= i <= members@.len(),
            inner@ == members_text(members@.subrange(0, i as int)),
        decreases members@.len() - i,
    {
        proof {
            let next = members@.subrange(0, i + 1);
            assert(next.drop_last() =~= members@.subrange(0, i as int));
        }
        inner.append(",");
        inner.append(display_usize(members[i]).as_str());
        i += 1;
    }
    proof {
        assert(members@.subrange(0, i as int) =~= members@);
    }
    let mut out = "{".to_owned();
    out.append(inner.as_str());
    out.append("}");
    out
}

/// One labelled edge line.
pub open spec fn edge_text(from: usize, to: usize, label: Seq<char>) -> Seq<char> {
    "  q"@ + decimal(from as nat) + " -> q"@ + decimal(to as nat) + " [label="@ + dot_quoted(label) + "];\n"@
}

/// Write one labelled edge line.
pub fn dot_edge(from: usize, to: usize, label: &str) -> (r: String)
    ensures
        r@ == edge_text(from, to, label@),
{
    let mut out = "  q".to_owned();
    out.append(display_usize(from).as_str());
    out.append(" -> q");
    out.append(display_usize(to).as_str());
    out.append(" [label=");
    out.append(quote_dot(label).as_str());
    out.append("];\n");
    out
}

/// The name `{:?}` gives a search outcome.
pub open spec fn status_name(status: BackendStatus) -> Seq<char> {
    match status {
        BackendStatus::Found => "Found"@,
        BackendStatus::Exhausted => "Exhausted"@,
        BackendStatus::StateLimit => "StateLimit"@,
        BackendStatus::Timeout => "Timeout"@,
    }
}

fn status_str(status: BackendStatus) -> (r: &'static str)
    ensures
        r@ == status_name(status),
{
    match status {
        BackendStatus::Found => "Found",
        BackendStatus::Exhausted => "Exhausted",
        BackendStatus::StateLimit => "StateLimit",
        BackendStatus::Timeout => "Timeout",
    }
}

/// What a drawing phase reports when it stops at a limit.
pub open spec fn limit_text(status: BackendStatus, phase: Seq<char>, max_states: usize, timeout_ms: u64) -> Seq<char> {
    match status {
        BackendStatus::StateLimit => phase + " hit the state limit ("@ + decimal(max_states as nat)
            + "); raise --max-states or simplify the pattern"@,
        BackendStatus::Timeout => phase + " hit the time limit ("@ + decimal(timeout_ms as nat)
            + " ms); raise --timeout-ms or simplify the pattern"@,
        _ => phase + " failed ("@ + status_name(status) + ")"@,
    }
}

/// The message for a phase that stopped with `status`.
pub fn limit_message(status: BackendStatus, phase: &str, max_states: usize, timeout_ms: u64) -> (r: String)
    ensures
        r@ == limit_text(status, phase@, max_states, timeout_ms),
{
    let mut out = phase.to_owned();
    match status {
        BackendStatus::StateLimit => {
            out.append(" hit the state limit (");
            out.append(display_usize(max_states).as_str());
            out.append("); raise --max-states or simplify the pattern");
        },
        BackendStatus::Timeout => {
            out.append(" hit the time limit (");
            out.append(display_u64(timeout_ms).as_str());
            out.append(" ms); raise --timeout-ms or simplify the pattern");
        },
        _ => {
            out.append(" failed (");
            out.append(status_str(status));
            out.append(")");
        },
    }
    out
}

/// What a drawing error says.
pub open spec fn draw_error_text(e: DrawError) -> Seq<char> {
    match e {
        DrawError::Input(f) => crate::parser::frontend_error_text(f),
        DrawError::Limit(m) => m@,
        DrawError::Io { path, message } => "failed to write "@ + path@ + ": "@ + message@,
        DrawError::DotMissing => "graphviz `dot` was not found on PATH; install Graphviz, or pass --emit-dot to print DOT"@,
        DrawError::DotFailed { code, stderr } => "graphviz `dot` failed"@ + code@ + ": "@ + stderr@,
    }
}

impl DrawError {
    /// The error as a one-line message.
    pub fn message(&self) -> (r: String)
        ensures
            r@ == draw_error_text(*self),
    {
        match self {
            DrawError::Input(f) => f.describe(),
            DrawError::Limit(m) => m.clone(),
            DrawError::Io { path, message } => {
                let mut out = "failed to write ".to_owned();
                out.append(path.as_str());
                out.append(": ");
                out.append(message.as_str());
                out
            },
            DrawError::DotMissing => {
                "graphviz `dot` was not found on PATH; install Graphviz, or pass --emit-dot to print DOT".to_owned()
            },
            DrawError::DotFailed { code, stderr } => {
                let mut out = "graphviz `dot` failed".to_owned();
                out.append(code.as_str());
                out.append(": ");
                out.append(stderr.as_str());
                out
            },
        }
    }
}

/// The views of a list of strings.
pub open spec fn views(v: Seq<String>) -> Seq<Seq<char>> {
    v.map_values(|s: String| s@)
}

/// The views of a list of optional strings.
pub open spec fn option_views(v: Seq<Option<String>>) -> Seq<Option<Seq<char>>> {
    v.map_values(|o: Option<String>| match o {
        Some(s) => Some(s@),
        None => None,
    })
}

/// The texts one after another.
pub open spec fn joined_all(v: Seq<Seq<char>>) -> Seq<char>
    decreases v.len(),
{
    if v.len() == 0 {
        Seq::empty()
    } else {
        joined_all(v.drop_last()) + v.last()
    }
}

/// The opening of every drawing, up to the arrow into the start state.
pub open spec fn header_text(kind: DrawKind, pattern: Seq<char>, start: usize) -> Seq<char> {
    "digraph {\n"@ + "  graph [rankdir=LR, pad=\"0.3\", bgcolor=\"transparent\"];\n"@
        + "  node [shape=circle, fontsize=12, fontname=\"Helvetica\"];\n"@
        + "  edge [fontsize=11, fontname=\"Helvetica\", arrowsize=0.7];\n"@ + "  labelloc=\"t\";\n  label="@
        + dot_quoted(kind_title(kind) + " of "@ + pattern) + ";\n"@
        + "  __start [shape=point, width=0.12, height=0.12, label=\"\"];\n"@ + "  __start -> q"@ + decimal(
        start as nat,
    ) + ";\n"@
}

/// The attribute list of a node that is accepting or labelled.
pub open spec fn attrs_text(accepting: bool, label: Option<Seq<char>>) -> Seq<char> {
    match label {
        Some(l) => if accepting {
            "shape=doublecircle, label="@ + dot_quoted(l)
        } else {
            "label="@ + dot_quoted(l)
        },
        None => "shape=doublecircle"@,
    }
}

/// The line declaring node `id`.
pub open spec fn node_text(id: int, accepting: bool, label: Option<Seq<char>>) -> Seq<char> {
    if !accepting && label is None {
        "  q"@ + decimal(id as nat) + ";\n"@
    } else {
        "  q"@ + decimal(id as nat) + " ["@ + attrs_text(accepting, label) + "];\n"@
    }
}

/// A deterministic drawing leaves out the dead state unless it is the start.
pub open spec fn hidden(kind: DrawKind, id: int, start: usize) -> bool {
    kind != DrawKind::Nfa && id == crate::minimize::DEAD && start != crate::minimize::DEAD
}

/// The node lines of the first `n` states.
pub open spec fn nodes_text(
    kind: DrawKind,
    start: usize,
    accepting: Seq<bool>,
    labels: Seq<Option<Seq<char>>>,
    n: int,
) -> Seq<char>
    decreases n,
{
    if n <= 0 {
        Seq::empty()
    } else if hidden(kind, n - 1, start) {
        nodes_text(kind, start, accepting, labels, n - 1)
    } else {
        nodes_text(kind, start, accepting, labels, n - 1) + node_text(n - 1, accepting[n - 1], labels[n - 1])
    }
}

/// A whole drawing: header, one line per shown state, the edge lines, and
/// the closing brace.
pub open spec fn automaton_text(
    kind: DrawKind,
    pattern: Seq<char>,
    start: usize,
    accepting: Seq<bool>,
    labels: Seq<Option<Seq<char>>>,
    edges: Seq<Seq<char>>,
) -> Seq<char> {
    header_text(kind, pattern, start) + nodes_text(kind, start, accepting, labels, accepting.len() as int)
        + joined_all(edges) + "}\n"@
}

/// Assemble a drawing from its states (accepting flags and optional node
/// labels, one per state) and its edge lines.
pub fn automaton_dot(
    kind: DrawKind,
    pattern: &str,
    start: usize,
    accepting: &Vec<bool>,
    labels: &Vec<Option<String>>,
    edges: &Vec<String>,
) -> (r: String)
    requires
        labels@.len() == accepting@.len(),
    ensures
        r@ == automaton_text(kind, pattern@, start, accepting@, option_views(labels@), views(edges@)),
{
    let mut out = "digraph {\n".to_owned();
    out.append("  graph [rankdir=LR, pad=\"0.3\", bgcolor=\"transparent\"];\n");
    out.append("  node [shape=circle, fontsize=12, fontname=\"Helvetica\"];\n");
    out.append("  edge [fontsize=11, fontname=\"Helvetica\", arrowsize=0.7];\n");
    let mut caption = kind.title().to_owned();
    caption.append(" of ");
    caption.append(pattern);
    out.append("  labelloc=\"t\";\n  label=");
    out.append(quote_dot(caption.as_str()).as_str());
    out.append(";\n");
    out.append("  __start [shape=point, width=0.12, height=0.12, label=\"\"];\n");
    out.append("  __start -> q");
    out.append(display_usize(start).as_str());
    out.append(";\n");
    let ghost head = out@;
    let ghost lv = option_views(labels@);
    let mut id: usize = 0;
    while id < accepting.len()
        invariant
            labels@.len() == accepting@.len(),
            lv == option_views(labels@),
            id <= accepting@.len(),
            out@ == head + nodes_text(kind, start, accepting@, lv, id as int),
        decreases accepting@.len() - id,
    {
        let hide = match kind {
            DrawKind::Nfa => false,
            _ => id == crate::minimize::DEAD && start != crate::minimize::DEAD,
        };
        if !hide {
            let accept = accepting[id];
            let mut line = "  q".to_owned();
            line.append(display_usize(id).as_str());
            match &labels[id] {
                Some(label) => {
                    line.append(" [");
                    if accept {
                        line.append("shape=doublecircle, ");
                    }
                    line.append("label=");
                    line.append(quote_dot(label.as_str()).as_str());
                    line.append("];\n");
                    proof {
                        assert(lv[id as int] == Some(label@));
                        if accept {
                            assert("shape=doublecircle, label="@ =~= "shape=doublecircle, "@ + "label="@) by {
                                reveal_strlit("shape=doublecircle, label=");
                                reveal_strlit("shape=doublecircle, ");
                                reveal_strlit("label=");
                            }
                        }
                    }
                },
                None => {
                    if accept {
                        line.append(" [shape=doublecircle];\n");
                        proof {
                            assert(" [shape=doublecircle];\n"@ =~= " ["@ + "shape=doublecircle"@ + "];\n"@) by {
                                reveal_strlit(" [shape=doublecircle];\n");
                                reveal_strlit(" [");
                                reveal_strlit("shape=doublecircle");
                                reveal_strlit("];\n");
                            }
                        }
                    } else {
                        line.append(";\n");
                    }
                    proof {
                        assert(lv[id as int] == None::<Seq<char>>);
                    }
                },
            }
            proof {
                assert(line@ =~= node_text(id as int, accepting@[id as int], lv[id as int]));
            }
            out.append(line.as_str());
        }
        proof {
            assert(out@ =~= head + nodes_text(kind, start, accepting@, lv, id + 1));
        }
        id += 1;
    }
    let ghost mid = out@;
    let mut k: usize = 0;
    while k < edges.len()
        invariant
            k <= edges@.len(),
            out@ == mid + joined_all(views(edges@).subrange(0, k as int)),
        decreases edges@.len() - k,
    {
        proof {
            let next = views(edges@).subrange(0, k + 1);
            assert(next.drop_last() =~= views(edges@).subrange(0, k as int));
        }
        out.append(edges[k].as_str());
        k += 1;
    }
    proof {
        assert(views(edges@).subrange(0, k as int) =~= views(edges@));
    }
    out.append("}\n");
    proof {
        assert(head =~= header_text(kind, pattern@, start));
    }
    out
}

/// The order of edge keys: by source, then by target.
pub open spec fn pair_lt(a: (usize, usize), b: (usize, usize)) -> bool {
    a.0 < b.0 || (a.0 == b.0 && a.1 < b.1)
}

/// The keys strictly increase.
pub open spec fn pairs_sorted(s: Seq<(usize, usize)>) -> bool {
    forall|i: int, j: int| 0 <= i < j < s.len() ==> pair_lt(#[trigger] s[i], #[trigger] s[j])
}

/// The pairs of `k`, in increasing order.
pub open spec fn sorted_pairs(k: Set<(usize, usize)>) -> Seq<(usize, usize)> {
    choose|s: Seq<(usize, usize)>| pairs_sorted(s) && forall|x: (usize, usize)| #[trigger] s.contains(x) <==> k.contains(x)
}

proof fn lemma_sorted_unique(a: Seq<(usize, usize)>, b: Seq<(usize, usize)>)
    requires
        pairs_sorted(a),
        pairs_sorted(b),
        forall|x: (usize, usize)| #[trigger] a.contains(x) <==> b.contains(x),
    ensures
        a == b,
    decreases a.len(),
{
    if a.len() == 0 {
        if b.len() > 0 {
            assert(b.contains(b[0]));
            assert(a.contains(b[0]));
            assert(false);
        }
        assert(a =~= b);
    } else {
        assert(a.contains(a[0]));
        assert(b.contains(a[0]));
        let j = choose|j: int| 0 <= j < b.len() && b[j] == a[0];
        assert(b.contains(b[0]));
        assert(a.contains(b[0]));
        let i = choose|i: int| 0 <= i < a.len() && a[i] == b[0];
        if j > 0 {
            assert(pair_lt(b[0], b[j]));
            if i > 0 {
                assert(pair_lt(a[0], a[i]));
            }
        }
        assert(a[0] == b[0]);
        let a1 = a.drop_first();
        let b1 = b.drop_first();
        assert forall|x: (usize, usize)| #[trigger] a1.contains(x) <==> b1.contains(x) by {
            if a1.contains(x) {
                let p = choose|p: int| 0 <= p < a1.len() && a1[p] == x;
                assert(a[p + 1] == x);
                assert(pair_lt(a[0], a[p + 1]));
                assert(a.contains(x));
                assert(b.contains(x));
                let q = choose|q: int| 0 <= q < b.len() && b[q] == x;
                if q == 0 {
                    assert(false);
                }
                assert(b1[q - 1] == x);
            }
            if b1.contains(x) {
                let p = choose|p: int| 0 <= p < b1.len() && b1[p] == x;
                assert(b[p + 1] == x);
                assert(pair_lt(b[0], b[p + 1]));
                assert(b.contains(x));
                assert(a.contains(x));
                let q = choose|q: int| 0 <= q < a.len() && a[q] == x;
                if q == 0 {
                    assert(false);
                }
                assert(a1[q - 1] == x);
            }
        }
        lemma_sorted_unique(a1, b1);
        assert(a =~= seq![a[0]] + a1);
        assert(b =~= seq![b[0]] + b1);
    }
}

/// The edge key `x` is in the list and its class holds `v`.
pub open spec fn map_has(keys: Seq<(usize, usize)>, sets: Seq<CharSet>, x: (usize, usize), v: int) -> bool {
    exists|i: int| 0 <= i < keys.len() && keys[i] == x && #[trigger] sets[i].has(v)
}

/// Add `set` to the class kept for `key`, keeping the keys in order.
fn merge_edge(keys: &mut Vec<(usize, usize)>, sets: &mut Vec<CharSet>, key: (usize, usize), set: &CharSet)
    requires
        pairs_sorted(old(keys)@),
        old(keys)@.len() == old(sets)@.len(),
        forall|i: int| 0 <= i < old(sets)@.len() ==> (#[trigger] old(sets)@[i]).wf(),
    ensures
        pairs_sorted(final(keys)@),
        final(keys)@.len() == final(sets)@.len(),
        forall|i: int| 0 <= i < final(sets)@.len() ==> (#[trigger] final(sets)@[i]).wf(),
        forall|x: (usize, usize)| #[trigger] final(keys)@.contains(x) <==> (old(keys)@.contains(x) || x == key),
        forall|x: (usize, usize), v: int|
            #[trigger] map_has(final(keys)@, final(sets)@, x, v) <==> (map_has(old(keys)@, old(sets)@, x, v) || (
            x == key && set.has(v))),
{
    let ghost k0 = keys@;
    let ghost s0 = sets@;
    let mut pos: usize = 0;
    while pos < keys.len() && pair_less(keys[pos], key)
        invariant
            keys@ == k0,
            sets@ == s0,
            pos <= k0.len(),
            forall|i: int| 0 <= i < pos ==> pair_lt(#[trigger] k0[i], key),
        decreases k0.len() - pos,
    {
        pos += 1;
    }
    if pos < keys.len() && keys[pos].0 == key.0 && keys[pos].1 == key.1 {
        let merged = sets[pos].union(set);
        sets.set(pos, merged);
        proof {
            assert forall|i: int| 0 <= i < sets@.len() implies (#[trigger] sets@[i]).wf() by {
                if i != pos {
                    assert(sets@[i] == s0[i]);
                }
            }
            assert(keys@ == k0);
            assert forall|x: (usize, usize), v: int|
                #[trigger] map_has(keys@, sets@, x, v) <==> (map_has(k0, s0, x, v) || (x == key && set.has(v))) by {
                if map_has(keys@, sets@, x, v) {
                    let i = choose|i: int| 0 <= i < keys@.len() && keys@[i] == x && #[trigger] sets@[i].has(v);
                    if i != pos {
                        assert(s0[i].has(v));
                    }
                }
                if map_has(k0, s0, x, v) {
                    let i = choose|i: int| 0 <= i < k0.len() && k0[i] == x && #[trigger] s0[i].has(v);
                    if i != pos {
                        assert(sets@[i].has(v));
                    } else {
                        assert(sets@[pos as int].has(v));
                    }
                }
                if x == key && set.has(v) {
                    assert(sets@[pos as int].has(v));
                }
            }
        }
    } else {
        let copy = set.clone();
        proof {
            assert forall|v: int| copy.has(v) == set.has(v) by {}
        }
        keys.insert(pos, key);
        sets.insert(pos, copy);
        proof {
            assert forall|i: int| 0 <= i < sets@.len() implies (#[trigger] sets@[i]).wf() by {
                if i < pos {
                    assert(sets@[i] == s0[i]);
                } else if i > pos {
                    assert(sets@[i] == s0[i - 1]);
                }
            }
            assert forall|i: int, j: int| 0 <= i < j < keys@.len() implies pair_lt(#[trigger] keys@[i], #[trigger] keys@[j]) by {
                if j < pos {
                } else if i < pos && j == pos {
                } else if i < pos {
                    assert(keys@[j] == k0[j - 1]);
                    if j - 1 > pos {
                        assert(pair_lt(k0[pos as int], k0[j - 1]));
                    }
                } else if i == pos {
                    assert(keys@[j] == k0[j - 1]);
                    assert(!pair_lt(k0[pos as int], key));
                    if j - 1 > pos {
                        assert(pair_lt(k0[pos as int], k0[j - 1]));
                    }
                } else {
                    assert(keys@[i] == k0[i - 1]);
                    assert(keys@[j] == k0[j - 1]);
                }
            }
            assert forall|x: (usize, usize)| #[trigger] keys@.contains(x) <==> (k0.contains(x) || x == key) by {
                if keys@.contains(x) {
                    let i = choose|i: int| 0 <= i < keys@.len() && keys@[i] == x;
                    if i < pos {
                        assert(k0[i] == x);
                    } else if i > pos {
                        assert(k0[i - 1] == x);
                    }
                }
                if k0.contains(x) {
                    let i = choose|i: int| 0 <= i < k0.len() && k0[i] == x;
                    if i < pos {
                        assert(keys@[i] == x);
                    } else {
                        assert(keys@[i + 1] == x);
                    }
                }
                if x == key {
                    assert(keys@[pos as int] == x);
                }
            }
            assert forall|x: (usize, usize), v: int|
                #[trigger] map_has(keys@, sets@, x, v) <==> (map_has(k0, s0, x, v) || (x == key && set.has(v))) by {
                if map_has(keys@, sets@, x, v) {
                    let i = choose|i: int| 0 <= i < keys@.len() && keys@[i] == x && #[trigger] sets@[i].has(v);
                    if i < pos {
                        assert(s0[i].has(v));
                    } else if i > pos {
                        assert(s0[i - 1].has(v));
                    }
                }
                if map_has(k0, s0, x, v) {
                    let i = choose|i: int| 0 <= i < k0.len() && k0[i] == x && #[trigger] s0[i].has(v);
                    if i < pos {
                        assert(sets@[i].has(v));
                    } else {
                        assert(sets@[i + 1].has(v));
                    }
                }
                if x == key && set.has(v) {
                    assert(sets@[pos as int].has(v));
                }
            }
        }
    }
}

fn pair_less(a: (usize, usize), b: (usize, usize)) -> (r: bool)
    ensures
        r == pair_lt(a, b),
{
    a.0 < b.0 || (a.0 == b.0 && a.1 < b.1)
}

/// The class edges, one per key of `k` in order, each labelled with the
/// union of the classes `p` gives it.
pub open spec fn class_edges(
    k: Set<(usize, usize)>,
    p: spec_fn((usize, usize), int) -> bool,
    alphabet: Alphabet,
    dot: bool,
) -> Seq<Seq<char>> {
    let ks = sorted_pairs(k);
    Seq::new(
        ks.len(),
        |i: int| edge_text(ks[i].0, ks[i].1, dot_label(canonical_of(|v: int| p(ks[i], v)), alphabet, dot)),
    )
}

/// The edge lines for the keys, each labelled with its class.
fn labeled_edges(keys: &Vec<(usize, usize)>, sets: &Vec<CharSet>, alphabet: Alphabet, dot: bool) -> (r: Vec<String>)
    requires
        keys@.len() == sets@.len(),
    ensures
        views(r@) == Seq::new(
            keys@.len(),
            |i: int| edge_text(keys@[i].0, keys@[i].1, dot_label(sets@[i].spec_intervals(), alphabet, dot)),
        ),
{
    let mut out: Vec<String> = Vec::new();
    let mut i: usize = 0;
    while i < keys.len()
        invariant
            keys@.len() == sets@.len(),
            i <= keys@.len(),
            views(out@) == Seq::new(
                i as nat,
                |j: int| edge_text(keys@[j].0, keys@[j].1, dot_label(sets@[j].spec_intervals(), alphabet, dot)),
            ),
        decreases keys@.len() - i,
    {
        let label = sets[i].to_dot_label(alphabet, dot);
        let (from, to) = keys[i];
        let line = dot_edge(from, to, label.as_str());
        let ghost before = out@;
        out.push(line);
        proof {
            assert(out@ =~= before.push(line));
            assert(views(out@) =~= views(before).push(line@));
            assert(views(out@) =~= Seq::new(
                (i + 1) as nat,
                |j: int| edge_text(keys@[j].0, keys@[j].1, dot_label(sets@[j].spec_intervals(), alphabet, dot)),
            ));
        }
        i += 1;
    }
    out
}

/// Keys kept in order with classes holding what `p` says make up exactly
/// the class edges of `k` and `p`.
proof fn lemma_class_edges(
    keys: Seq<(usize, usize)>,
    sets: Seq<CharSet>,
    k: Set<(usize, usize)>,
    p: spec_fn((usize, usize), int) -> bool,
    alphabet: Alphabet,
    dot: bool,
)
    requires
        pairs_sorted(keys),
        keys.len() == sets.len(),
        forall|i: int| 0 <= i < sets.len() ==> (#[trigger] sets[i]).wf(),
        forall|x: (usize, usize)| #[trigger] keys.contains(x) <==> k.contains(x),
        forall|x: (usize, usize), v: int| #[trigger] map_has(keys, sets, x, v) <==> p(x, v),
    ensures
        keys == sorted_pairs(k),
        Seq::new(
            keys.len(),
            |i: int| edge_text(keys[i].0, keys[i].1, dot_label(sets[i].spec_intervals(), alphabet, dot)),
        ) == class_edges(k, p, alphabet, dot),
{
    let ks = sorted_pairs(k);
    assert(pairs_sorted(keys) && forall|x: (usize, usize)| #[trigger] keys.contains(x) <==> k.contains(x));
    lemma_sorted_unique(keys, ks);
    assert forall|i: int| 0 <= i < keys.len() implies sets[i].spec_intervals() == canonical_of(
        |v: int| p(keys[i], v),
    ) by {
        let q = |v: int| p(keys[i], v);
        assert forall|v: int| in_ivs(sets[i].spec_intervals(), v) == q(v) by {
            if sets[i].has(v) {
                assert(map_has(keys, sets, keys[i], v));
            }
            if p(keys[i], v) {
                assert(map_has(keys, sets, keys[i], v));
                let j = choose|j: int| 0 <= j < keys.len() && keys[j] == keys[i] && #[trigger] sets[j].has(v);
                if j != i {
                    if j < i {
                        assert(pair_lt(keys[j], keys[i]));
                    } else {
                        assert(pair_lt(keys[i], keys[j]));
                    }
                }
            }
        }
        assert(sets[i].wf());
        let c = canonical_of(q);
        assert(ivs_wf(sets[i].spec_intervals()) && forall|v: int| in_ivs(sets[i].spec_intervals(), v) == q(v));
        assert(ivs_wf(c) && forall|v: int| in_ivs(c, v) == q(v));
        lemma_canonical(c, sets[i].spec_intervals());
    }
    assert(Seq::new(
        keys.len(),
        |i: int| edge_text(keys[i].0, keys[i].1, dot_label(sets[i].spec_intervals(), alphabet, dot)),
    ) =~= class_edges(k, p, alphabet, dot));
}

/// Among the first `j` class edges of state `q`, one goes to `t`.
pub open spec fn linked_upto(states: Seq<State>, q: int, t: usize, j: int) -> bool {
    exists|k: int| 0 <= k < j && #[trigger] states[q].transitions@[k].target == t
}

/// Among the first `j` class edges of state `q`, one goes to `t` and its
/// class holds `v`.
pub open spec fn edge_upto(states: Seq<State>, q: int, t: usize, v: int, j: int) -> bool {
    exists|k: int| 0 <= k < j && #[trigger] states[q].transitions@[k].target == t && states[q].transitions@[k].set.has(v)
}

/// Some class edge leads from `x.0` to `x.1`.
pub open spec fn nfa_linked(states: Seq<State>, x: (usize, usize)) -> bool {
    x.0 < states.len() && linked_upto(states, x.0 as int, x.1, states[x.0 as int].transitions@.len() as int)
}

/// Some class edge from `x.0` to `x.1` holds `v`.
pub open spec fn nfa_edge(states: Seq<State>, x: (usize, usize), v: int) -> bool {
    x.0 < states.len() && edge_upto(states, x.0 as int, x.1, v, states[x.0 as int].transitions@.len() as int)
}

/// The ε-edge lines of the first `n` states, in order.
pub open spec fn eps_edges(states: Seq<State>, n: int) -> Seq<Seq<char>>
    decreases n,
{
    if n <= 0 {
        Seq::empty()
    } else {
        eps_edges(states, n - 1) + states[n - 1].epsilon@.map_values(|t: usize| edge_text((n - 1) as usize, t, "ε"@))
    }
}

/// The edge lines of an NFA drawing: every ε-edge, then one line per
/// (source, target) pair joined by class edges, labelled with their union.
pub open spec fn nfa_edges(nfa: Nfa, alphabet: Alphabet, dot: bool) -> Seq<Seq<char>> {
    eps_edges(nfa.states@, nfa.states@.len() as int) + class_edges(
        Set::new(|x: (usize, usize)| nfa_linked(nfa.states@, x)),
        |x: (usize, usize), v: int| nfa_edge(nfa.states@, x, v),
        alphabet,
        dot,
    )
}

/// The drawing of an NFA: every state shown, the accept state doubled.
pub open spec fn nfa_dot_text(nfa: Nfa, pattern: Seq<char>, config: Config) -> Seq<char> {
    automaton_text(
        DrawKind::Nfa,
        pattern,
        nfa.start,
        Seq::new(nfa.states@.len(), |i: int| i == nfa.accept),
        Seq::new(nfa.states@.len(), |i: int| None::<Seq<char>>),
        nfa_edges(nfa, config.alphabet, config.dot_matches_newline),
    )
}

/// The number of edges of the first `n` states.
pub open spec fn edge_total(states: Seq<State>, n: int) -> nat
    decreases n,
{
    if n <= 0 {
        0
    } else {
        edge_total(states, n - 1) + states[n - 1].epsilon@.len() + states[n - 1].transitions@.len()
    }
}

/// `n`, or `usize::MAX` when it is larger.
pub open spec fn capped(n: nat) -> usize {
    if n <= usize::MAX {
        n as usize
    } else {
        usize::MAX
    }
}

/// Draw an NFA; also report its state count and its edge count (which
/// stops at `usize::MAX`).
pub fn nfa_to_dot(nfa: &Nfa, pattern: &str, config: &Config) -> (r: (String, usize, usize))
    ensures
        r.0@ == nfa_dot_text(*nfa, pattern@, *config),
        r.1 == nfa.states@.len(),
        r.2 == capped(edge_total(nfa.states@, nfa.states@.len() as int)),
{
    let ghost states = nfa.states@;
    let n = nfa.states.len();
    let mut keys: Vec<(usize, usize)> = Vec::new();
    let mut sets: Vec<CharSet> = Vec::new();
    let mut edges: Vec<String> = Vec::new();
    let mut count: usize = 0;
    let mut from: usize = 0;
    while from < n
        invariant
            states == nfa.states@,
            n == states.len(),
            from <= n,
            views(edges@) == eps_edges(states, from as int),
            pairs_sorted(keys@),
            keys@.len() == sets@.len(),
            forall|i: int| 0 <= i < sets@.len() ==> (#[trigger] sets@[i]).wf(),
            forall|x: (usize, usize)| #[trigger] keys@.contains(x) <==> (x.0 < from && nfa_linked(states, x)),
            forall|x: (usize, usize), v: int|
                #[trigger] map_has(keys@, sets@, x, v) <==> (x.0 < from && nfa_edge(states, x, v)),
            count == capped(edge_total(states, from as int)),
        decreases n - from,
    {
        let state = &nfa.states[from];
        let ghost eps0 = views(edges@);
        let mut j: usize = 0;
        while j < state.epsilon.len()
            invariant
                states == nfa.states@,
                from < n == states.len(),
                *state == states[from as int],
                j <= state.epsilon@.len(),
                views(edges@) == eps0 + state.epsilon@.subrange(0, j as int).map_values(
                    |t: usize| edge_text(from, t, "ε"@),
                ),
            decreases state.epsilon@.len() - j,
        {
            let line = dot_edge(from, state.epsilon[j], "ε");
            let ghost before = edges@;
            edges.push(line);
            proof {
                assert(edges@ =~= before.push(line));
                assert(views(edges@) =~= views(before).push(line@));
                assert(state.epsilon@.subrange(0, j + 1).map_values(|t: usize| edge_text(from, t, "ε"@))
                    =~= state.epsilon@.subrange(0, j as int).map_values(|t: usize| edge_text(from, t, "ε"@)).push(
                    edge_text(from, state.epsilon@[j as int], "ε"@),
                ));
                assert(views(edges@) =~= eps0 + state.epsilon@.subrange(0, j + 1).map_values(
                    |t: usize| edge_text(from, t, "ε"@),
                ));
            }
            j += 1;
        }
        proof {
            assert(state.epsilon@.subrange(0, j as int) =~= state.epsilon@);
            assert(views(edges@) =~= eps_edges(states, from + 1));
        }
        let mut k: usize = 0;
        while k < state.transitions.len()
            invariant
                states == nfa.states@,
                from < n == states.len(),
                *state == states[from as int],
                k <= state.transitions@.len(),
                pairs_sorted(keys@),
                keys@.len() == sets@.len(),
                forall|i: int| 0 <= i < sets@.len() ==> (#[trigger] sets@[i]).wf(),
                forall|x: (usize, usize)|
                    #[trigger] keys@.contains(x) <==> ((x.0 < from && nfa_linked(states, x)) || (x.0 == from
                        && linked_upto(states, from as int, x.1, k as int))),
                forall|x: (usize, usize), v: int|
                    #[trigger] map_has(keys@, sets@, x, v) <==> ((x.0 < from && nfa_edge(states, x, v)) || (x.0
                        == from && edge_upto(states, from as int, x.1, v, k as int))),
            decreases state.transitions@.len() - k,
        {
            let transition = &state.transitions[k];
            merge_edge(&mut keys, &mut sets, (from, transition.target), &transition.set);
            proof {
                assert forall|x: (usize, usize)|
                    #[trigger] keys@.contains(x) <==> ((x.0 < from && nfa_linked(states, x)) || (x.0 == from
                        && linked_upto(states, from as int, x.1, k + 1))) by {
                    if x.0 == from && linked_upto(states, from as int, x.1, k + 1) && !linked_upto(
                        states,
                        from as int,
                        x.1,
                        k as int,
                    ) {
                        let kk = choose|kk: int| 0 <= kk < k + 1 && #[trigger] states[from as int].transitions@[kk].target == x.1;
                        assert(kk == k);
                    }
                    if x == (from, transition.target) {
                        assert(states[from as int].transitions@[k as int].target == x.1);
                    }
                }
                assert forall|x: (usize, usize), v: int|
                    #[trigger] map_has(keys@, sets@, x, v) <==> ((x.0 < from && nfa_edge(states, x, v)) || (x.0
                        == from && edge_upto(states, from as int, x.1, v, k + 1))) by {
                    if x.0 == from && edge_upto(states, from as int, x.1, v, k + 1) && !edge_upto(
                        states,
                        from as int,
                        x.1,
                        v,
                        k as int,
                    ) {
                        let kk = choose|kk: int|
                            0 <= kk < k + 1 && #[trigger] states[from as int].transitions@[kk].target == x.1
                                && states[from as int].transitions@[kk].set.has(v);
                        assert(kk == k);
                    }
                    if x == (from, transition.target) && transition.set.has(v) {
                        assert(states[from as int].transitions@[k as int].target == x.1);
                        assert(edge_upto(states, from as int, x.1, v, k + 1));
                    }
                }
            }
            k += 1;
        }
        let ghost c0 = count;
        count = count.saturating_add(state.epsilon.len());
        let ghost c1 = count;
        count = count.saturating_add(state.transitions.len());
        proof {
            let t = edge_total(states, from as int);
            let e = states[from as int].epsilon@.len();
            let u = states[from as int].transitions@.len();
            assert(c0 == capped(t));
            assert(c1 == capped(t + e)) by {
                if t > usize::MAX {
                    assert(c0 == usize::MAX);
                } else {
                    assert(c0 == t);
                }
            }
            assert(count == capped(t + e + u)) by {
                if t + e > usize::MAX {
                    assert(c1 == usize::MAX);
                } else {
                    assert(c1 == t + e);
                }
            }
            assert(edge_total(states, from + 1) == edge_total(states, from as int) + states[from as int].epsilon@.len()
                + states[from as int].transitions@.len());
            assert forall|x: (usize, usize)| #[trigger] keys@.contains(x) <==> (x.0 < from + 1 && nfa_linked(states, x)) by {}
            assert forall|x: (usize, usize), v: int|
                #[trigger] map_has(keys@, sets@, x, v) <==> (x.0 < from + 1 && nfa_edge(states, x, v)) by {}
        }
        from += 1;
    }
    let ghost eps_views = views(edges@);
    let labeled = labeled_edges(&keys, &sets, config.alphabet, config.dot_matches_newline);
    proof {
        lemma_class_edges(
            keys@,
            sets@,
            Set::new(|x: (usize, usize)| nfa_linked(states, x)),
            |x: (usize, usize), v: int| nfa_edge(states, x, v),
            config.alphabet,
            config.dot_matches_newline,
        );
    }
    let mut i: usize = 0;
    while i < labeled.len()
        invariant
            i <= labeled@.len(),
            views(edges@) == eps_views + views(labeled@).subrange(0, i as int),
        decreases labeled@.len() - i,
    {
        let ghost before = edges@;
        let line = labeled[i].clone();
        edges.push(line);
        proof {
            assert(line@ == labeled@[i as int]@);
            assert(edges@ =~= before.push(line));
            assert(views(edges@) =~= views(before).push(line@));
            assert(views(labeled@).subrange(0, i + 1) =~= views(labeled@).subrange(0, i as int).push(line@));
            assert(views(edges@) =~= eps_views + views(labeled@).subrange(0, i + 1));
        }
        i += 1;
    }
    proof {
        assert(views(labeled@).subrange(0, i as int) =~= views(labeled@));
    }
    let mut accepting: Vec<bool> = Vec::new();
    let mut labels: Vec<Option<String>> = Vec::new();
    let mut id: usize = 0;
    while id < n
        invariant
            n == nfa.states@.len(),
            id <= n,
            accepting@ == Seq::new(id as nat, |q: int| q == nfa.accept),
            option_views(labels@) == Seq::new(id as nat, |q: int| None::<Seq<char>>),
        decreases n - id,
    {
        accepting.push(id == nfa.accept);
        let ghost before = labels@;
        labels.push(None);
        proof {
            assert(accepting@ =~= Seq::new((id + 1) as nat, |q: int| q == nfa.accept));
            assert(labels@ =~= before.push(None));
            assert(option_views(labels@) =~= option_views(before).push(None));
            assert(option_views(labels@) =~= Seq::new((id + 1) as nat, |q: int| None::<Seq<char>>));
        }
        id += 1;
    }
    let body = automaton_dot(DrawKind::Nfa, pattern, nfa.start, &accepting, &labels, &edges);
    proof {
        assert(views(edges@) == nfa_edges(*nfa, config.alphabet, config.dot_matches_newline));
    }
    (body, n, count)
}

/// A deterministic drawing shows the dead state only when it is the start.
pub open spec fn dfa_shown(dfa: Dfa, q: int) -> bool {
    !(dfa.start != DEAD && q == DEAD)
}

/// Among the first `j` edges of state `q`, one goes to `t`.
pub open spec fn dfa_linked_upto(states: Seq<DfaState>, q: int, t: usize, j: int) -> bool {
    exists|k: int| 0 <= k < j && #[trigger] states[q].transitions@[k].1 == t
}

/// Among the first `j` edges of state `q`, one goes to `t` and its class
/// holds `v`.
pub open spec fn dfa_edge_upto(states: Seq<DfaState>, q: int, t: usize, v: int, j: int) -> bool {
    exists|k: int| 0 <= k < j && #[trigger] states[q].transitions@[k].1 == t && states[q].transitions@[k].0.has(v)
}

/// A shown edge leads from `x.0` to `x.1`.
pub open spec fn dfa_linked(dfa: Dfa, x: (usize, usize)) -> bool {
    &&& x.0 < dfa.states@.len()
    &&& dfa_shown(dfa, x.0 as int)
    &&& dfa_shown(dfa, x.1 as int)
    &&& dfa_linked_upto(dfa.states@, x.0 as int, x.1, dfa.states@[x.0 as int].transitions@.len() as int)
}

/// A shown edge from `x.0` to `x.1` holds `v`.
pub open spec fn dfa_edge(dfa: Dfa, x: (usize, usize), v: int) -> bool {
    &&& x.0 < dfa.states@.len()
    &&& dfa_shown(dfa, x.0 as int)
    &&& dfa_shown(dfa, x.1 as int)
    &&& dfa_edge_upto(dfa.states@, x.0 as int, x.1, v, dfa.states@[x.0 as int].transitions@.len() as int)
}

/// The (source, target) pairs of the shown edges.
pub open spec fn dfa_edge_keys(dfa: Dfa) -> Set<(usize, usize)> {
    Set::new(|x: (usize, usize)| dfa_linked(dfa, x))
}

/// The drawing of a DFA: each shown state labelled with the NFA states it
/// stands for, accepting states doubled, one edge line per joined pair.
pub open spec fn dfa_dot_text(dfa: Dfa, pattern: Seq<char>, kind: DrawKind, config: Config) -> Seq<char> {
    automaton_text(
        kind,
        pattern,
        dfa.start,
        Seq::new(dfa.states@.len(), |i: int| dfa.states@[i].accepting),
        Seq::new(dfa.states@.len(), |i: int| Some(subset_text(dfa.states@[i].members@))),
        class_edges(
            dfa_edge_keys(dfa),
            |x: (usize, usize), v: int| dfa_edge(dfa, x, v),
            config.alphabet,
            config.dot_matches_newline,
        ),
    )
}

/// The number of states a DFA drawing shows.
pub open spec fn dfa_shown_count(dfa: Dfa) -> nat {
    if dfa.start != DEAD && dfa.states@.len() > 0 {
        (dfa.states@.len() - 1) as nat
    } else {
        dfa.states@.len()
    }
}

/// Draw a DFA; also report how many states and edge lines it shows.
pub fn dfa_to_dot(dfa: &Dfa, pattern: &str, kind: DrawKind, config: &Config) -> (r: (String, usize, usize))
    ensures
        r.0@ == dfa_dot_text(*dfa, pattern@, kind, *config),
        r.1 == dfa_shown_count(*dfa),
        r.2 == sorted_pairs(dfa_edge_keys(*dfa)).len(),
{
    let ghost states = dfa.states@;
    let n = dfa.states.len();
    let skip_dead = dfa.start != DEAD;
    let mut keys: Vec<(usize, usize)> = Vec::new();
    let mut sets: Vec<CharSet> = Vec::new();
    let mut shown: usize = 0;
    let mut from: usize = 0;
    while from < n
        invariant
            states == dfa.states@,
            n == states.len(),
            skip_dead == (dfa.start != DEAD),
            from <= n,
            shown == (if skip_dead && from > 0 { from - 1 } else { from as int }),
            pairs_sorted(keys@),
            keys@.len() == sets@.len(),
            forall|i: int| 0 <= i < sets@.len() ==> (#[trigger] sets@[i]).wf(),
            forall|x: (usize, usize)| #[trigger] keys@.contains(x) <==> (x.0 < from && dfa_linked(*dfa, x)),
            forall|x: (usize, usize), v: int| #[trigger] map_has(keys@, sets@, x, v) <==> (x.0 < from && dfa_edge(*dfa, x, v)),
        decreases n - from,
    {
        if !(skip_dead && from == DEAD) {
            shown += 1;
            let state = &dfa.states[from];
            let mut k: usize = 0;
            while k < state.transitions.len()
                invariant
                    states == dfa.states@,
                    from < n == states.len(),
                    skip_dead == (dfa.start != DEAD),
                    dfa_shown(*dfa, from as int),
                    *state == states[from as int],
                    k <= state.transitions@.len(),
                    pairs_sorted(keys@),
                    keys@.len() == sets@.len(),
                    forall|i: int| 0 <= i < sets@.len() ==> (#[trigger] sets@[i]).wf(),
                    forall|x: (usize, usize)|
                        #[trigger] keys@.contains(x) <==> ((x.0 < from && dfa_linked(*dfa, x)) || (x.0 == from
                            && dfa_shown(*dfa, x.1 as int) && dfa_linked_upto(states, from as int, x.1, k as int))),
                    forall|x: (usize, usize), v: int|
                        #[trigger] map_has(keys@, sets@, x, v) <==> ((x.0 < from && dfa_edge(*dfa, x, v)) || (x.0
                            == from && dfa_shown(*dfa, x.1 as int) && dfa_edge_upto(states, from as int, x.1, v, k as int))),
                decreases state.transitions@.len() - k,
            {
                let (set, to) = (&state.transitions[k].0, state.transitions[k].1);
                if !(skip_dead && to == DEAD) {
                    merge_edge(&mut keys, &mut sets, (from, to), set);
                }
                proof {
                    assert forall|x: (usize, usize)|
                        #[trigger] keys@.contains(x) <==> ((x.0 < from && dfa_linked(*dfa, x)) || (x.0 == from
                            && dfa_shown(*dfa, x.1 as int) && dfa_linked_upto(states, from as int, x.1, k + 1))) by {
                        if x.0 == from && dfa_linked_upto(states, from as int, x.1, k + 1) && !dfa_linked_upto(
                            states,
                            from as int,
                            x.1,
                            k as int,
                        ) {
                            let kk = choose|kk: int| 0 <= kk < k + 1 && #[trigger] states[from as int].transitions@[kk].1 == x.1;
                            assert(kk == k);
                        }
                        if x == (from, to) {
                            assert(states[from as int].transitions@[k as int].1 == x.1);
                        }
                    }
                    assert forall|x: (usize, usize), v: int|
                        #[trigger] map_has(keys@, sets@, x, v) <==> ((x.0 < from && dfa_edge(*dfa, x, v)) || (x.0
                            == from && dfa_shown(*dfa, x.1 as int) && dfa_edge_upto(states, from as int, x.1, v, k + 1))) by {
                        if x.0 == from && dfa_edge_upto(states, from as int, x.1, v, k + 1) && !dfa_edge_upto(
                            states,
                            from as int,
                            x.1,
                            v,
                            k as int,
                        ) {
                            let kk = choose|kk: int|
                                0 <= kk < k + 1 && #[trigger] states[from as int].transitions@[kk].1 == x.1
                                    && states[from as int].transitions@[kk].0.has(v);
                            assert(kk == k);
                        }
                        if x == (from, to) && set.has(v) {
                            assert(states[from as int].transitions@[k as int].1 == x.1);
                            assert(dfa_edge_upto(states, from as int, x.1, v, k + 1));
                        }
                    }
                }
                k += 1;
            }
        }
        proof {
            assert forall|x: (usize, usize)| #[trigger] keys@.contains(x) <==> (x.0 < from + 1 && dfa_linked(*dfa, x)) by {}
            assert forall|x: (usize, usize), v: int|
                #[trigger] map_has(keys@, sets@, x, v) <==> (x.0 < from + 1 && dfa_edge(*dfa, x, v)) by {}
        }
        from += 1;
    }
    let edges = labeled_edges(&keys, &sets, config.alphabet, config.dot_matches_newline);
    proof {
        lemma_class_edges(
            keys@,
            sets@,
            dfa_edge_keys(*dfa),
            |x: (usize, usize), v: int| dfa_edge(*dfa, x, v),
            config.alphabet,
            config.dot_matches_newline,
        );
    }
    let mut accepting: Vec<bool> = Vec::new();
    let mut labels: Vec<Option<String>> = Vec::new();
    let mut id: usize = 0;
    while id < n
        invariant
            states == dfa.states@,
            n == states.len(),
            id <= n,
            accepting@ == Seq::new(id as nat, |q: int| states[q].accepting),
            option_views(labels@) == Seq::new(id as nat, |q: int| Some(subset_text(states[q].members@))),
        decreases n - id,
    {
        accepting.push(dfa.states[id].accepting);
        let ghost before = labels@;
        let label = format_subset(dfa.states[id].members.as_slice());
        labels.push(Some(label));
        proof {
            assert(accepting@ =~= Seq::new((id + 1) as nat, |q: int| states[q].accepting));
            assert(option_views(labels@) =~= option_views(before).push(Some(label@)));
            assert(option_views(labels@) =~= Seq::new((id + 1) as nat, |q: int| Some(subset_text(states[q].members@))));
        }
        id += 1;
    }
    let body = automaton_dot(kind, pattern, dfa.start, &accepting, &labels, &edges);
    (body, shown, keys.len())
}

/// A drawing and its counts.
#[derive(Debug)]
pub struct DrawResult {
    pub kind: DrawKind,
    pub pattern: String,
    pub dot: String,
    pub state_count: usize,
    pub transition_count: usize,
}

/// `d` draws an automaton of the kind asked for: an NFA as it is, or a DFA
/// with the language of an NFA.
pub open spec fn drawn(d: DrawResult, kind: DrawKind, pattern: Seq<char>, config: Config) -> bool {
    &&& d.kind == kind
    &&& d.pattern@ == pattern
    &&& if kind == DrawKind::Nfa {
        exists|nfa: Nfa|
            #![trigger nfa_dot_text(nfa, pattern, config)]
            nfa.wf() && d.dot@ == nfa_dot_text(nfa, pattern, config) && d.state_count == nfa.states@.len()
                && d.transition_count == capped(edge_total(nfa.states@, nfa.states@.len() as int)) && (forall|w: Seq<char>|
                #[trigger] nfa.accepts(w) == crate::laws::pattern_matches(pattern, config, w))
    } else {
        exists|nfa: Nfa, dfa: Dfa|
            #![trigger nfa.wf(), dfa_dot_text(dfa, pattern, kind, config)]
            nfa.wf() && dfa.wf() && (forall|w: Seq<char>| #[trigger] dfa.accepts(w) == nfa.accepts(w)) && (forall|w: Seq<char>|
                #[trigger] nfa.accepts(w) == crate::laws::pattern_matches(pattern, config, w)) && (kind == DrawKind::Minimized
                ==> forall|p: usize, q: usize| p < dfa.states@.len() && q < dfa.states@.len() && p != q ==> #[trigger] dfa.distinguishable(p, q))
                && d.dot@
                == dfa_dot_text(dfa, pattern, kind, config) && d.state_count == dfa_shown_count(dfa)
                && d.transition_count == sorted_pairs(dfa_edge_keys(dfa)).len()
    }
}

/// `e` reports that `phase` stopped at the state or the time limit.
pub open spec fn limit_error(e: DrawError, phase: Seq<char>, config: Config) -> bool {
    exists|status: BackendStatus|
        (status == BackendStatus::StateLimit || status == BackendStatus::Timeout) && e == DrawError::Limit(
            e->Limit_0,
        ) && e->Limit_0@ == #[trigger] limit_text(status, phase, config.max_product_states, config.timeout_ms)
}

fn determinize_for_draw(nfa: &Nfa, config: &Config) -> (r: Result<Dfa, DrawError>)
    requires
        nfa.wf(),
        nfa.scalar_edges(),
    ensures
        match r {
            Ok(d) => d.wf() && d.scalar_edges() && forall|w: Seq<char>| #[trigger] d.accepts(w) == nfa.accepts(w),
            Err(e) => limit_error(e, "determinization"@, *config),
        },
{
    let clock = crate::analysis::WallClock::start();
    match crate::minimize::determinize_within(nfa, config.max_product_states, config.timeout_ms as u128, &clock) {
        Ok(d) => Ok(d),
        Err(status) => {
            let message = limit_message(status, "determinization", config.max_product_states, config.timeout_ms);
            let e = DrawError::Limit(message);
            proof {
                assert(e->Limit_0@ == limit_text(status, "determinization"@, config.max_product_states, config.timeout_ms));
            }
            Err(e)
        },
    }
}

fn minimize_for_draw(dfa: &Dfa, config: &Config) -> (r: Result<Dfa, DrawError>)
    requires
        dfa.wf(),
        dfa.scalar_edges(),
    ensures
        match r {
            Ok(m) => m.wf() && m.scalar_edges() && (forall|w: Seq<char>| #[trigger] m.accepts(w) == dfa.accepts(w))
                && forall|p: usize, q: usize| p < m.states@.len() && q < m.states@.len() && p != q ==> #[trigger] m.distinguishable(p, q),
            Err(e) => limit_error(e, "minimization"@, *config),
        },
{
    let clock = crate::analysis::WallClock::start();
    match crate::minimize::minimize_within(dfa, config.timeout_ms as u128, &clock) {
        Ok(m) => Ok(m),
        Err(status) => {
            let message = limit_message(status, "minimization", config.max_product_states, config.timeout_ms);
            let e = DrawError::Limit(message);
            proof {
                assert(e->Limit_0@ == limit_text(status, "minimization"@, config.max_product_states, config.timeout_ms));
            }
            Err(e)
        },
    }
}

/// Parse `pattern`, build the automaton asked for, and draw it as
/// Graphviz DOT. A refused pattern is an input error; a DFA that hits the
/// state or time limit while it is built or minimized is a limit error.
pub fn draw_dot(pattern: &str, kind: DrawKind, config: &Config) -> (r: Result<DrawResult, DrawError>)
    ensures
        r matches Ok(d) ==> drawn(d, kind, pattern@, *config),
        r matches Err(e) ==> (e is Input) || (kind != DrawKind::Nfa && (limit_error(e, "determinization"@, *config)
            || (kind == DrawKind::Minimized && limit_error(e, "minimization"@, *config)))),
        r matches Err(DrawError::Input(_)) ==> !crate::laws::pattern_accepted(pattern@, *config),
        crate::laws::pattern_accepted(pattern@, *config) && kind == DrawKind::Nfa ==> r is Ok,
{
    let read = crate::parser::parse(pattern, config);
    proof {
        if read is Ok {
            let expr = read->Ok_0;
            assert forall|w: Seq<char>| #[trigger] matches_expr(expr, w) == crate::laws::pattern_matches(pattern@, *config, w) by {
                assert(matches_expr(expr, w) == crate::laws::pattern_matches(pattern@, *config, w));
            }
        }
    }
    draw_read(pattern, read, kind, config)
}

/// Draw the automaton asked for once `pattern` has been read as `read`:
/// a refusal is an input error carrying the parser's error, and nothing
/// else is; an expression is drawn, which succeeds for the automaton
/// built straight from it, and for a DFA fails only at a limit.
pub fn draw_read(
    pattern: &str,
    read: Result<Expr, FrontendError>,
    kind: DrawKind,
    config: &Config,
) -> (r: Result<DrawResult, DrawError>)
    requires
        read matches Ok(e) ==> expr_wf(e, config.alphabet, config.max_repeat),
        read matches Ok(e) ==> forall|w: Seq<char>| #[trigger] matches_expr(e, w) == crate::laws::pattern_matches(pattern@, *config, w),
    ensures
        read matches Err(e) ==> r == Err::<DrawResult, DrawError>(DrawError::Input(e)),
        read is Ok ==> !(r matches Err(DrawError::Input(_))),
        read is Ok && kind == DrawKind::Nfa ==> r is Ok,
        r matches Ok(d) ==> drawn(d, kind, pattern@, *config),
        r matches Err(e) ==> (e is Input) || (kind != DrawKind::Nfa && (limit_error(e, "determinization"@, *config)
            || (kind == DrawKind::Minimized && limit_error(e, "minimization"@, *config)))),
{
    let expr = match read {
        Ok(expr) => expr,
        Err(error) => return Err(DrawError::Input(error)),
    };
    let nfa = Nfa::from_expr(&expr);
    proof {
        assert(nfa.scalar_edges());
        crate::ast::lemma_wf_bounds_ordered(expr, config.alphabet, config.max_repeat);
        assert forall|w: Seq<char>| #[trigger] nfa.accepts(w) == crate::laws::pattern_matches(pattern@, *config, w) by {
            assert(matches_expr(expr, w) == crate::laws::pattern_matches(pattern@, *config, w));
        }
    }
    let (dot, state_count, transition_count) = match kind {
        DrawKind::Nfa => nfa_to_dot(&nfa, pattern, config),
        DrawKind::Dfa => {
            let dfa = determinize_for_draw(&nfa, config)?;
            dfa_to_dot(&dfa, pattern, kind, config)
        },
        DrawKind::Minimized => {
            let dfa = determinize_for_draw(&nfa, config)?;
            let minimized = minimize_for_draw(&dfa, config)?;
            dfa_to_dot(&minimized, pattern, kind, config)
        },
    };
    let d = DrawResult { kind, pattern: pattern.to_owned(), dot, state_count, transition_count };
    Ok(d)
}

} // verus!
