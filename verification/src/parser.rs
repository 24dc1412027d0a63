pub mod grammar;

use crate::parser::grammar::{
    alt_end, alt_has, at_branch_end, atom_end, atom_has, concat_end, concat_has, lemma_concat_step,
    lemma_parts_match_concat, lemma_power_atom, lemma_same_kind, parts_match, quantified, quantifier_allows, repeat_end,
    repeat_has, split_has,
};
use crate::ast::{expr_wf, lemma_concat_unfold, matches_concat, matches_expr, Expr, ExprKind, Span};
use crate::charset::CharSet;
use crate::config::{alphabet_has, Alphabet, Config};
use crate::text::{char_debug, char_text, debug_char, decimal, display_usize};
use vstd::prelude::*;
use vstd::string::*;

verus! {

#[derive(Clone, Copy, Debug, Eq, PartialEq, Structural)]
pub enum FrontendErrorKind {
    Syntax,
    Unsupported,
}

/// A pattern the front end refused, with the byte range that caused it.
#[derive(Clone, Debug)]
pub struct FrontendError {
    pub kind: FrontendErrorKind,
    pub message: String,
    pub span_start: usize,
    pub span_end: usize,
    pub hint: Option<String>,
}

impl FrontendError {
    fn new(kind: FrontendErrorKind, message: String, span: Span) -> (r: Self)
        ensures
            r.kind == kind,
            r.message == message,
            r.span_start == span.start,
            r.span_end == span.end,
            r.hint is None,
    {
        Self { kind, message, span_start: span.start, span_end: span.end, hint: None }
    }

    fn syntax(message: String, span: Span) -> (r: Self)
        ensures
            r.kind == FrontendErrorKind::Syntax,
            r.message == message,
            r.span_start == span.start,
            r.span_end == span.end,
            r.hint is None,
    {
        Self::new(FrontendErrorKind::Syntax, message, span)
    }

    fn unsupported(message: String, span: Span) -> (r: Self)
        ensures
            r.kind == FrontendErrorKind::Unsupported,
            r.message == message,
            r.span_start == span.start,
            r.span_end == span.end,
            r.hint is None,
    {
        Self::new(FrontendErrorKind::Unsupported, message, span)
    }

    fn with_hint(self, hint: String) -> (r: Self)
        ensures
            r.kind == self.kind,
            r.message == self.message,
            r.span_start == self.span_start,
            r.span_end == self.span_end,
            r.hint == Some(hint),
    {
        let mut out = self;
        out.hint = Some(hint);
        out
    }

    fn with_default_hint(self) -> (r: Self)
        ensures
            r.kind == self.kind,
            r.message == self.message,
            r.span_start == self.span_start,
            r.span_end == self.span_end,
            self.hint is Some ==> r.hint == self.hint,
            r.hint is Some,
    {
        let mut out = self;
        if out.hint.is_none() {
            out.hint = Some("run 'regexrel syntax' for the supported subset".to_owned());
        }
        out
    }

    pub fn span(&self) -> (r: Span)
        ensures
            r.start == self.span_start,
            r.end == self.span_end,
    {
        Span::new(self.span_start, self.span_end)
    }
}

/// Number of bytes of `c` in UTF-8.
pub open spec fn utf8_width(c: char) -> int {
    if (c as int) < 0x80 {
        1
    } else if (c as int) < 0x800 {
        2
    } else if (c as int) < 0x10000 {
        3
    } else {
        4
    }
}

/// `char::len_utf8`: the number of bytes of `c` in UTF-8.
pub fn len_utf8(c: char) -> (r: usize)
    ensures
        r == utf8_width(c),
{
    let v = c as u32;
    if v < 0x80 {
        1
    } else if v < 0x800 {
        2
    } else if v < 0x10000 {
        3
    } else {
        4
    }
}

/// The characters of `s` with their byte offsets, as consecutive UTF-8
/// positions inside `s` (`str::char_indices`).
#[verifier::external_body]
fn char_indices(s: &str) -> (r: Vec<(usize, char)>)
    ensures
        r@.len() == s@.len(),
        forall|i: int| 0 <= i < r@.len() ==> (#[trigger] r@[i]).1 == s@[i],
        r@.len() > 0 ==> r@[0].0 == 0,
        forall|i: int| 0 <= i < r@.len() - 1 ==> r@[i + 1].0 == (#[trigger] r@[i]).0 + utf8_width(r@[i].1),
        r@.len() > 0 ==> r@.last().0 + utf8_width(r@.last().1) == s.len(),
        r@.len() == 0 ==> s.len() == 0,
{
    s.char_indices().collect()
}

fn text3(a: &str, b: String, c: &str) -> (r: String)
    ensures
        r@ == a@ + b@ + c@,
{
    let mut out = a.to_owned();
    out.append(b.as_str());
    out.append(c);
    out
}

/// The value of an ASCII decimal digit.
pub open spec fn digit_value(c: char) -> Option<int> {
    if '0' <= c && c <= '9' {
        Some(c as int - '0' as int)
    } else {
        None
    }
}

/// `char::to_digit(10)`: the value of an ASCII decimal digit.
pub fn decimal_digit(c: char) -> (r: Option<u32>)
    ensures
        r matches Some(d) ==> digit_value(c) == Some(d as int),
        r is None <==> digit_value(c) is None,
{
    if '0' <= c && c <= '9' {
        Some((c as u32) - ('0' as u32))
    } else {
        None
    }
}

/// The decimal number spelled by a run of digits.
pub open spec fn decimal_value(digits: Seq<char>) -> int
    decreases digits.len(),
{
    if digits.len() == 0 {
        0
    } else {
        decimal_value(digits.drop_last()) * 10 + digit_value(digits.last()).unwrap()
    }
}

/// Anchors appear nowhere inside `e`.
pub open spec fn no_anchor(e: Expr) -> bool
    decreases e,
{
    match e.kind {
        ExprKind::AnchorStart => false,
        ExprKind::AnchorEnd => false,
        ExprKind::Concat(parts) => forall|i: int| 0 <= i < parts@.len() ==> no_anchor(#[trigger] parts@[i]),
        ExprKind::Alt(parts) => forall|i: int| 0 <= i < parts@.len() ==> no_anchor(#[trigger] parts@[i]),
        ExprKind::Repeat { expr, .. } => no_anchor(*expr),
        _ => true,
    }
}

/// A character that stands for itself outside a class: it is none of the
/// metacharacters `( ) [ . \\ ^ $ * + ? { |` and lies in the alphabet.
pub open spec fn plain_char(c: char, alphabet: Alphabet) -> bool {
    &&& !(c == '(' || c == ')' || c == '[' || c == '.' || c == '\\' || c == '^' || c == '$' || c == '*'
        || c == '+' || c == '?' || c == '{' || c == '|')
    &&& alphabet_has(alphabet, c as int)
}

/// Every character of `s` stands for itself.
pub open spec fn plain_text(s: Seq<char>, alphabet: Alphabet) -> bool {
    forall|i: int| 0 <= i < s.len() ==> plain_char(#[trigger] s[i], alphabet)
}

/// Every character of the table from position `from` on stands for itself.
spec fn plain_from(chars: Seq<(usize, char)>, from: int, alphabet: Alphabet) -> bool {
    forall|i: int| from <= i < chars.len() ==> plain_char((#[trigger] chars[i]).1, alphabet)
}

/// An expression without anchors passes the anchor check.
proof fn lemma_no_anchor_accepted(e: Expr)
    requires
        no_anchor(e),
    ensures
        anchors_ok(e),
{
    if let ExprKind::Concat(parts) = e.kind {
        assert forall|i: int| 0 <= i < parts@.len() implies #[trigger] outer_part_ok(parts@, i) by {
            assert(no_anchor(parts@[i]));
        }
    }
}

/// A concatenation of literals matches exactly the string they spell.
proof fn lemma_literal_chain(e: Expr, s: Seq<char>, n: nat)
    requires
        e.kind matches ExprKind::Concat(parts) && parts@.len() == s.len() && forall|i: int|
            0 <= i < s.len() ==> (#[trigger] parts@[i]).kind == ExprKind::Literal(s[i]),
        n <= s.len(),
    ensures
        forall|w: Seq<char>| matches_concat(e, n, w) <==> w == s.take(n as int),
    decreases n,
{
    let parts = e.kind->Concat_0;
    if n == 0 {
        assert forall|w: Seq<char>| matches_concat(e, n, w) <==> w == s.take(n as int) by {
            if w.len() == 0 {
                assert(w =~= s.take(0));
            }
        }
    } else {
        lemma_literal_chain(e, s, (n - 1) as nat);
        let m = (n - 1) as int;
        assert(parts@[m].kind == ExprKind::Literal(s[m]));
        assert forall|w: Seq<char>| matches_concat(e, n, w) <==> w == s.take(n as int) by {
            lemma_concat_unfold(e, n, w);
            if matches_concat(e, n, w) {
                let k = choose|k: int|
                    0 <= k <= w.len() && matches_concat(e, (n - 1) as nat, #[trigger] w.take(k)) && matches_expr(
                        parts@[n - 1],
                        w.skip(k),
                    );
                assert(w.take(k) == s.take(m));
                assert(w.skip(k) == seq![s[m]]);
                assert(w =~= w.take(k) + w.skip(k));
                assert(w =~= s.take(n as int));
            }
            if w == s.take(n as int) {
                assert(w.take(m) =~= s.take(m));
                assert(w.skip(m) =~= seq![s[m]]);
                assert(matches_concat(e, (n - 1) as nat, w.take(m)));
                assert(matches_expr(parts@[m], w.skip(m)));
            }
        }
    }
}

/// Part `i` of the outer concatenation: `^` only first, `$` only last, and
/// no anchor inside any other part.
pub open spec fn outer_part_ok(parts: Seq<Expr>, i: int) -> bool {
    match parts[i].kind {
        ExprKind::AnchorStart => i == 0,
        ExprKind::AnchorEnd => i + 1 == parts.len(),
        _ => no_anchor(parts[i]),
    }
}

proof fn lemma_concat_part_refused(e: Expr, parts: Vec<Expr>, i: int)
    requires
        e.kind == ExprKind::Concat(parts),
        0 <= i < parts@.len(),
        !outer_part_ok(parts@, i),
    ensures
        !anchors_ok(e),
{
    assert(e.kind is Concat);
    assert(e.kind->Concat_0 == parts);
    assert(!outer_part_ok(e.kind->Concat_0@, i));
}

/// `^` stands only first and `$` only last in the outer concatenation (or
/// alone as the whole expression), and no anchor stands anywhere else.
pub open spec fn anchors_ok(e: Expr) -> bool {
    match e.kind {
        ExprKind::Concat(parts) => forall|i: int| 0 <= i < parts@.len() ==> #[trigger] outer_part_ok(parts@, i),
        ExprKind::AnchorStart => true,
        ExprKind::AnchorEnd => true,
        _ => no_anchor(e),
    }
}

/// Parse `pattern` in the supported subset.
///
/// An accepted pattern yields a tree whose literals and classes lie in the
/// configured alphabet, whose repetition bounds are ordered and within
/// `max_repeat`, and whose anchors stand only at the outer boundary. A
/// refused pattern always carries a hint. The tree of an accepted pattern
/// matches exactly what the grammar (`grammar::alt_has`) says the whole
/// pattern denotes. A pattern whose every character stands for itself is
/// accepted and matches exactly its own text.
pub fn parse(pattern: &str, config: &Config) -> (r: Result<Expr, FrontendError>)
    ensures
        r matches Ok(e) ==> expr_wf(e, config.alphabet, config.max_repeat) && anchors_ok(e),
        r matches Err(err) ==> err.hint is Some,
        plain_text(pattern@, config.alphabet) ==> (r matches Ok(e) && forall|w: Seq<char>|
            matches_expr(e, w) <==> w == pattern@),
        (r matches Ok(e) ==> alt_end(grammar::char_table(pattern@), 0, config.alphabet)
            == pattern@.len() && forall|w: Seq<char>| #[trigger] matches_expr(e, w) == alt_has(
            grammar::char_table(pattern@),
            0,
            config.alphabet,
            config.dot_matches_newline,
            w,
        )),
        r is Ok ==> grammar::pattern_ok(grammar::char_table(pattern@), config.alphabet, config.max_repeat),
        grammar::pattern_ok(grammar::char_table(pattern@), config.alphabet, config.max_repeat) && grammar::alt_anchor_free(
            grammar::char_table(pattern@),
            0,
            config.alphabet,
        ) ==> r is Ok,
{
    match parse_inner(pattern, config) {
        Ok(expr) => Ok(expr),
        Err(error) => Err(error.with_default_hint()),
    }
}

fn parse_inner(pattern: &str, config: &Config) -> (r: Result<Expr, FrontendError>)
    ensures
        r matches Ok(e) ==> expr_wf(e, config.alphabet, config.max_repeat) && anchors_ok(e),
        plain_text(pattern@, config.alphabet) ==> (r matches Ok(e) && forall|w: Seq<char>|
            matches_expr(e, w) <==> w == pattern@),
        (r matches Ok(e) ==> alt_end(grammar::char_table(pattern@), 0, config.alphabet)
            == pattern@.len() && forall|w: Seq<char>| #[trigger] matches_expr(e, w) == alt_has(
            grammar::char_table(pattern@),
            0,
            config.alphabet,
            config.dot_matches_newline,
            w,
        )),
        r is Ok ==> grammar::pattern_ok(grammar::char_table(pattern@), config.alphabet, config.max_repeat),
        grammar::pattern_ok(grammar::char_table(pattern@), config.alphabet, config.max_repeat) && grammar::alt_anchor_free(
            grammar::char_table(pattern@),
            0,
            config.alphabet,
        ) ==> r is Ok,
{
    let mut parser = Parser::new(pattern, config);
    proof {
        if plain_text(pattern@, config.alphabet) {
            assert forall|i: int| 0 <= i < parser.chars@.len() implies plain_char(
                (#[trigger] parser.chars@[i]).1,
                config.alphabet,
            ) by {
                assert(pattern@[i] == parser.chars@[i].1);
            }
            assert(chars_between(parser.chars@, 0, parser.chars@.len() as int) =~= pattern@);
        }
    }
    let expr = parser.parse_alt()?;
    if let Some((offset, ch)) = parser.peek() {
        proof {
            assert(parser.chars@[parser.pos as int].0 + utf8_width(parser.chars@[parser.pos as int].1)
                <= parser.input_len);
        }
        return Err(
            FrontendError::syntax(
                text3("unexpected character ", debug_char(ch), ""),
                Span::new(offset, offset + len_utf8(ch)),
            ),
        );
    }
    proof {
        if plain_text(pattern@, config.alphabet) || grammar::alt_anchor_free(parser.chars@, 0, config.alphabet) {
            lemma_no_anchor_accepted(expr);
        }
    }
    validate_anchors(&expr)?;
    Ok(expr)
}

struct Parser<'a> {
    input_len: usize,
    chars: Vec<(usize, char)>,
    pos: usize,
    config: &'a Config,
}

/// The character table fits inside the input.
spec fn table_ok(chars: Seq<(usize, char)>, input_len: usize) -> bool {
    forall|i: int| 0 <= i < chars.len() ==> (#[trigger] chars[i]).0 + utf8_width(chars[i].1) <= input_len
}

impl<'a> Parser<'a> {
    spec fn wf(&self) -> bool {
        &&& self.pos <= self.chars.len()
        &&& table_ok(self.chars@, self.input_len)
    }

    /// The parser only moves forward over the same input and settings.
    spec fn advanced_from(&self, earlier: &Self) -> bool {
        &&& self.wf()
        &&& self.chars == earlier.chars
        &&& self.input_len == earlier.input_len
        &&& self.config == earlier.config
        &&& earlier.pos <= self.pos
    }

    spec fn alphabet(&self) -> Alphabet {
        self.config.alphabet
    }

    spec fn max_repeat(&self) -> usize {
        self.config.max_repeat
    }

    /// Whether `.` matches a newline.
    spec fn dot(&self) -> bool {
        self.config.dot_matches_newline
    }

    /// The character at position `i` of the input.
    spec fn char_at(&self, i: int) -> char {
        self.chars@[i].1
    }

    fn new(input: &str, config: &'a Config) -> (r: Self)
        ensures
            r.wf(),
            r.pos == 0,
            r.config == config,
            r.chars@.len() == input@.len(),
            forall|i: int| 0 <= i < r.chars@.len() ==> (#[trigger] r.chars@[i]).1 == input@[i],
            r.chars@ == grammar::char_table(input@),
    {
        let chars = char_indices(input);
        proof {
            assert forall|i: int| 0 <= i < chars@.len() implies (#[trigger] chars@[i]).0 + utf8_width(
                chars@[i].1,
            ) <= input.len() by {
                lemma_offsets_bounded(chars@, input.len() as int, i);
            }
        }
        proof {
            grammar::lemma_char_table(chars@, input@);
        }
        Self { input_len: input.len(), chars, pos: 0, config }
    }

    fn peek(&self) -> (r: Option<(usize, char)>)
        ensures
            self.pos < self.chars.len() ==> r == Some(self.chars@[self.pos as int]),
            self.pos >= self.chars.len() ==> r is None,
    {
        if self.pos < self.chars.len() {
            Some(self.chars[self.pos])
        } else {
            None
        }
    }

    fn peek_n(&self, n: usize) -> (r: Option<(usize, char)>)
        ensures
            self.pos + n < self.chars.len() ==> r == Some(self.chars@[self.pos + n]),
            self.pos + n >= self.chars.len() ==> r is None,
    {
        if n < self.chars.len() && self.pos < self.chars.len() - n {
            Some(self.chars[self.pos + n])
        } else {
            None
        }
    }

    fn next_is(&self, c: char) -> (r: bool)
        ensures
            r <==> (self.pos < self.chars.len() && self.chars@[self.pos as int].1 == c),
    {
        self.pos < self.chars.len() && self.chars[self.pos].1 == c
    }

    fn bump(&mut self) -> (r: Option<(usize, char)>)
        requires
            old(self).wf(),
        ensures
            final(self).advanced_from(old(self)),
            old(self).pos < old(self).chars.len() ==> r == Some(old(self).chars@[old(self).pos as int])
                && final(self).pos == old(self).pos + 1,
            old(self).pos >= old(self).chars.len() ==> r is None && final(self).pos == old(self).pos,
    {
        let result = self.peek();
        if result.is_some() {
            self.pos = self.pos + 1;
        }
        result
    }

    fn current_offset(&self) -> (r: usize)
        requires
            self.wf(),
        ensures
            r <= self.input_len,
            r == if self.pos < self.chars.len() {
                self.chars@[self.pos as int].0
            } else {
                self.input_len
            },
    {
        match self.peek() {
            Some((offset, _)) => {
                proof {
                    assert(self.chars@[self.pos as int].0 + utf8_width(self.chars@[self.pos as int].1)
                        <= self.input_len);
                }
                offset
            },
            None => self.input_len,
        }
    }

    fn parse_alt(&mut self) -> (r: Result<Expr, FrontendError>)
        requires
            old(self).wf(),
        ensures
            final(self).advanced_from(old(self)),
            r matches Ok(e) ==> expr_wf(e, old(self).alphabet(), old(self).max_repeat()),
            plain_from(old(self).chars@, old(self).pos as int, old(self).alphabet()) ==> (r matches Ok(e)
                && final(self).pos == final(self).chars.len() && no_anchor(e) && forall|w: Seq<char>|
                matches_expr(e, w) <==> w == chars_between(
                    old(self).chars@,
                    old(self).pos as int,
                    old(self).chars.len() as int,
                )),
            (r matches Ok(e) ==> final(self).pos == alt_end(old(self).chars@, old(self).pos as int, old(self).alphabet())
                && forall|w: Seq<char>| #[trigger] matches_expr(e, w) == alt_has(old(self).chars@, old(self).pos as int, old(self).alphabet(), old(self).dot(), w)),
            r is Ok <==> grammar::alt_ok(old(self).chars@, old(self).pos as int, old(self).alphabet(), old(self).max_repeat()),
            r is Ok ==> at_branch_end(old(self).chars@, final(self).pos as int) && !(final(self).pos < old(self).chars.len()
                && old(self).chars@[final(self).pos as int].1 == '|'),
            grammar::alt_anchor_free(old(self).chars@, old(self).pos as int, old(self).alphabet()) ==> (r matches Ok(e) ==> no_anchor(e)),
        decreases old(self).chars.len() - old(self).pos, 3nat,
    {
        let ghost plain = plain_from(self.chars@, self.pos as int, self.alphabet());
        let ghost p0 = self.pos as int;
        let ghost c = self.chars@;
        let ghost a = self.alphabet();
        let ghost dot = self.dot();
        let ghost mr = self.max_repeat();
        let start = self.current_offset();
        let first = match self.parse_concat() {
            Ok(first) => first,
            Err(error) => {
                proof {
                    assert(!grammar::alt_ok(c, p0, a, mr));
                }
                return Err(error);
            },
        };
        proof {
            let e = self.pos as int;
            assert(grammar::alt_ok(c, p0, a, mr) == if e < c.len() && c[e].1 == '|' {
                grammar::alt_ok(c, e + 1, a, mr)
            } else {
                true
            });
            assert(grammar::alt_anchor_free(c, p0, a) == if e < c.len() && c[e].1 == '|' {
                grammar::concat_anchor_free(c, p0, a) && grammar::alt_anchor_free(c, e + 1, a)
            } else {
                grammar::concat_anchor_free(c, p0, a)
            });
        }
        let ghost only_branch = first;
        let mut branches: Vec<Expr> = Vec::new();
        branches.push(first);
        proof {
            assert forall|w: Seq<char>| #[trigger] alt_has(c, p0, a, dot, w) == ((exists|i: int|
                0 <= i < branches@.len() && matches_expr(#[trigger] branches@[i], w)) || (self.pos < c.len() && c[self.pos as int].1
                == '|' && alt_has(c, self.pos + 1, a, dot, w))) by {
                assert(branches@[0] == first);
                if matches_expr(first, w) {
                    assert(matches_expr(branches@[0], w));
                }
            }
        }
        while self.next_is('|')
            invariant
                self.advanced_from(old(self)),
                plain == plain_from(old(self).chars@, old(self).pos as int, old(self).alphabet()),
                plain ==> branches@ == seq![only_branch] && self.pos == self.chars.len(),
                branches@.len() > 0,
                forall|i: int| 0 <= i < branches@.len() ==> expr_wf(#[trigger] branches@[i], old(self).alphabet(), old(self).max_repeat()),
                p0 == old(self).pos,
                c == old(self).chars@,
                a == old(self).alphabet(),
                dot == old(self).dot(),
                forall|w: Seq<char>| #[trigger] alt_has(c, p0, a, dot, w) == ((exists|i: int|
                    0 <= i < branches@.len() && matches_expr(#[trigger] branches@[i], w)) || (self.pos < c.len() && c[self.pos as int].1
                    == '|' && alt_has(c, self.pos + 1, a, dot, w))),
                alt_end(c, p0, a) == if self.pos < c.len() && c[self.pos as int].1 == '|' {
                    alt_end(c, self.pos + 1, a)
                } else {
                    self.pos as int
                },
                mr == old(self).max_repeat(),
                at_branch_end(c, self.pos as int),
                grammar::alt_ok(c, p0, a, mr) == if self.pos < c.len() && c[self.pos as int].1 == '|' {
                    grammar::alt_ok(c, self.pos + 1, a, mr)
                } else {
                    true
                },
                grammar::alt_anchor_free(c, p0, a) ==> (forall|i: int| 0 <= i < branches@.len() ==> no_anchor(#[trigger] branches@[i]))
                    && (self.pos < c.len() && c[self.pos as int].1 == '|' ==> grammar::alt_anchor_free(c, self.pos + 1, a)),
            decreases self.chars.len() - self.pos,
        {
            let ghost q = self.pos as int;
            let ghost before = branches@;
            self.bump();
            let branch = match self.parse_concat() {
                Ok(branch) => branch,
                Err(error) => {
                    proof {
                        assert(!grammar::alt_ok(c, q + 1, a, mr));
                    }
                    return Err(error);
                },
            };
            proof {
                let e = self.pos as int;
                assert(grammar::alt_ok(c, q + 1, a, mr) == if e < c.len() && c[e].1 == '|' {
                    grammar::alt_ok(c, e + 1, a, mr)
                } else {
                    true
                });
                assert(grammar::alt_anchor_free(c, q + 1, a) == if e < c.len() && c[e].1 == '|' {
                    grammar::concat_anchor_free(c, q + 1, a) && grammar::alt_anchor_free(c, e + 1, a)
                } else {
                    grammar::concat_anchor_free(c, q + 1, a)
                });
            }
            branches.push(branch);
            proof {
                assert(branches@ == before.push(branch));
                assert forall|w: Seq<char>| #[trigger] alt_has(c, p0, a, dot, w) == ((exists|i: int|
                    0 <= i < branches@.len() && matches_expr(#[trigger] branches@[i], w)) || (self.pos < c.len() && c[self.pos as int].1
                    == '|' && alt_has(c, self.pos + 1, a, dot, w))) by {
                    assert(alt_has(c, q + 1, a, dot, w) == (concat_has(c, q + 1, a, dot, w) || (self.pos < c.len()
                        && c[self.pos as int].1 == '|' && alt_has(c, self.pos + 1, a, dot, w))));
                    if exists|i: int| 0 <= i < before.len() && matches_expr(#[trigger] before[i], w) {
                        let i = choose|i: int| 0 <= i < before.len() && matches_expr(#[trigger] before[i], w);
                        assert(branches@[i] == before[i]);
                    }
                    if exists|i: int| 0 <= i < branches@.len() && matches_expr(#[trigger] branches@[i], w) {
                        let i = choose|i: int| 0 <= i < branches@.len() && matches_expr(#[trigger] branches@[i], w);
                        if i < before.len() {
                            assert(branches@[i] == before[i]);
                        }
                    }
                    if matches_expr(branch, w) {
                        assert(matches_expr(branches@[before.len() as int], w));
                    }
                }
            }
        }
        let end = branches[branches.len() - 1].span.end;
        if branches.len() == 1 {
            let ghost all = branches@;
            let only = branches.pop().unwrap();
            proof {
                assert(only == all[0]);
                assert forall|w: Seq<char>| #[trigger] matches_expr(only, w) == alt_has(c, p0, a, dot, w) by {
                    if matches_expr(only, w) {
                        assert(matches_expr(all[0], w));
                    }
                }
            }
            Ok(only)
        } else {
            let ghost all = branches@;
            let r = Expr::new(ExprKind::Alt(branches), Span::new(start, end));
            proof {
                assert forall|w: Seq<char>| #[trigger] matches_expr(r, w) == alt_has(c, p0, a, dot, w) by {
                    assert(r.kind->Alt_0@ == all);
                    if exists|i: int| 0 <= i < all.len() && matches_expr(#[trigger] all[i], w) {
                        let i = choose|i: int| 0 <= i < all.len() && matches_expr(#[trigger] all[i], w);
                        assert(matches_expr(r.kind->Alt_0@[i], w));
                    }
                }
            }
            Ok(r)
        }
    }

    fn parse_concat(&mut self) -> (r: Result<Expr, FrontendError>)
        requires
            old(self).wf(),
        ensures
            final(self).advanced_from(old(self)),
            r matches Ok(e) ==> expr_wf(e, old(self).alphabet(), old(self).max_repeat()),
            plain_from(old(self).chars@, old(self).pos as int, old(self).alphabet()) ==> (r matches Ok(e)
                && final(self).pos == final(self).chars.len() && no_anchor(e) && forall|w: Seq<char>|
                matches_expr(e, w) <==> w == chars_between(
                    old(self).chars@,
                    old(self).pos as int,
                    old(self).chars.len() as int,
                )),
            (r matches Ok(e) ==> final(self).pos == concat_end(old(self).chars@, old(self).pos as int, old(self).alphabet())
                && forall|w: Seq<char>| #[trigger] matches_expr(e, w) == concat_has(old(self).chars@, old(self).pos as int, old(self).alphabet(), old(self).dot(), w)),
            r is Ok <==> grammar::concat_ok(old(self).chars@, old(self).pos as int, old(self).alphabet(), old(self).max_repeat()),
            r is Ok ==> at_branch_end(old(self).chars@, final(self).pos as int),
            grammar::concat_anchor_free(old(self).chars@, old(self).pos as int, old(self).alphabet()) ==> (r matches Ok(e) ==> no_anchor(e)),
        decreases old(self).chars.len() - old(self).pos, 2nat,
    {
        let ghost plain = plain_from(self.chars@, self.pos as int, self.alphabet());
        let ghost first = self.pos as int;
        let ghost c = self.chars@;
        let ghost a = self.alphabet();
        let ghost dot = self.dot();
        let ghost mr = self.max_repeat();
        let start = self.current_offset();
        let mut parts: Vec<Expr> = Vec::new();
        proof {
            assert forall|w: Seq<char>| #[trigger] concat_has(c, first, a, dot, w) == split_has(parts@, parts@.len(), c, first, a, dot, w) by {
                if concat_has(c, first, a, dot, w) {
                    assert(w.take(0) =~= Seq::<char>::empty());
                    assert(w.skip(0) =~= w);
                    assert(grammar::parts_match(parts@, 0, w.take(0)));
                }
                if split_has(parts@, parts@.len(), c, first, a, dot, w) {
                    let k = choose|k: int| 0 <= k <= w.len() && parts_match(parts@, 0, #[trigger] w.take(k)) && concat_has(c, first, a, dot, w.skip(k));
                    assert(w.take(k).len() == 0);
                    assert(w.skip(k) =~= w);
                }
            }
        }
        loop
            invariant
                self.advanced_from(old(self)),
                forall|i: int| 0 <= i < parts@.len() ==> expr_wf(#[trigger] parts@[i], old(self).alphabet(), old(self).max_repeat()),
                first == old(self).pos,
                c == old(self).chars@,
                a == old(self).alphabet(),
                dot == old(self).dot(),
                forall|w: Seq<char>| #[trigger] concat_has(c, first, a, dot, w) == split_has(parts@, parts@.len(), c, self.pos as int, a, dot, w),
                concat_end(c, first, a) == concat_end(c, self.pos as int, a),
                mr == old(self).max_repeat(),
                grammar::concat_ok(c, first, a, mr) == grammar::concat_ok(c, self.pos as int, a, mr),
                grammar::concat_anchor_free(c, first, a) ==> grammar::concat_anchor_free(c, self.pos as int, a) && forall|i: int|
                    0 <= i < parts@.len() ==> no_anchor(#[trigger] parts@[i]),
                plain == plain_from(old(self).chars@, first, old(self).alphabet()),
                plain ==> self.pos == first + parts@.len() && forall|i: int|
                    0 <= i < parts@.len() ==> (#[trigger] parts@[i]).kind == ExprKind::Literal(
                        self.chars@[first + i].1,
                    ),
            ensures
                self.advanced_from(old(self)),
                forall|i: int| 0 <= i < parts@.len() ==> expr_wf(#[trigger] parts@[i], old(self).alphabet(), old(self).max_repeat()),
                forall|w: Seq<char>| #[trigger] concat_has(c, first, a, dot, w) == split_has(parts@, parts@.len(), c, self.pos as int, a, dot, w),
                concat_end(c, first, a) == concat_end(c, self.pos as int, a),
                mr == old(self).max_repeat(),
                grammar::concat_ok(c, first, a, mr) == grammar::concat_ok(c, self.pos as int, a, mr),
                grammar::concat_anchor_free(c, first, a) ==> grammar::concat_anchor_free(c, self.pos as int, a) && forall|i: int|
                    0 <= i < parts@.len() ==> no_anchor(#[trigger] parts@[i]),
                at_branch_end(c, self.pos as int),
                plain ==> self.pos == self.chars.len() && self.pos == first + parts@.len() && forall|i: int|
                    0 <= i < parts@.len() ==> (#[trigger] parts@[i]).kind == ExprKind::Literal(
                        self.chars@[first + i].1,
                    ),
            decreases self.chars.len() - self.pos,
        {
            let ch = match self.peek() {
                Some((_, c)) => c,
                None => break,
            };
            if ch == ')' || ch == '|' {
                proof {
                    if plain {
                        assert(plain_char(self.chars@[self.pos as int].1, old(self).alphabet()));
                    }
                }
                break;
            }
            let ghost q = self.pos as int;
            let ghost before = parts@;
            let part = match self.parse_repeat() {
                Ok(part) => part,
                Err(error) => {
                    proof {
                        assert(!grammar::concat_ok(c, q, a, mr));
                    }
                    return Err(error);
                },
            };
            proof {
                assert(grammar::concat_ok(c, q, a, mr) == grammar::concat_ok(c, self.pos as int, a, mr));
                assert(grammar::concat_anchor_free(c, q, a) == (grammar::atom_anchor_free(c, q, a) && grammar::concat_anchor_free(
                    c,
                    self.pos as int,
                    a,
                )));
            }
            proof {
                lemma_concat_step(c, first, q, self.pos as int, a, dot, before, part);
            }
            parts.push(part);
            proof {
                assert(parts@ == before.push(part));
            }
        }
        proof {
            let n = parts@.len();
            assert forall|w: Seq<char>| #[trigger] concat_has(c, first, a, dot, w) == parts_match(parts@, n, w) by {
                if split_has(parts@, n, c, self.pos as int, a, dot, w) {
                    let k = choose|k: int| 0 <= k <= w.len() && parts_match(parts@, n, #[trigger] w.take(k)) && concat_has(c, self.pos as int, a, dot, w.skip(k));
                    assert(w.take(k) =~= w);
                }
                if parts_match(parts@, n, w) {
                    assert(w.take(w.len() as int) =~= w);
                    assert(w.skip(w.len() as int).len() == 0);
                    assert(concat_has(c, self.pos as int, a, dot, w.skip(w.len() as int)));
                }
            }
        }
        let ghost text = chars_between(self.chars@, first, self.chars.len() as int);
        proof {
            if plain {
                assert(text.len() == parts@.len());
                assert forall|i: int| 0 <= i < text.len() implies (#[trigger] parts@[i]).kind == ExprKind::Literal(
                    text[i],
                ) by {
                    assert(text[i] == self.chars@[first + i].1);
                }
            }
        }
        if parts.len() == 0 {
            let r = Expr::new(ExprKind::Empty, Span::new(start, start));
            proof {
                if plain {
                    assert forall|w: Seq<char>| matches_expr(r, w) <==> w == text by {
                        if w.len() == 0 {
                            assert(w =~= text);
                        }
                    }
                }
            }
            Ok(r)
        } else if parts.len() == 1 {
            let ghost all = parts@;
            let only = parts.pop().unwrap();
            proof {
                if plain {
                    assert(text =~= seq![text[0]]);
                }
                assert(only == all[0]);
                assert forall|w: Seq<char>| #[trigger] matches_expr(only, w) == parts_match(all, 1, w) by {
                    if matches_expr(only, w) {
                        assert(w.take(0) =~= Seq::<char>::empty());
                        assert(w.skip(0) =~= w);
                        assert(parts_match(all, 0, w.take(0)));
                    }
                    if parts_match(all, 1, w) {
                        let k = choose|k: int| 0 <= k <= w.len() && parts_match(all, 0, #[trigger] w.take(k)) && matches_expr(all[0], w.skip(k));
                        assert(w.take(k).len() == 0);
                        assert(w.skip(k) =~= w);
                    }
                }
            }
            Ok(only)
        } else {
            let end = parts[parts.len() - 1].span.end;
            let r = Expr::new(ExprKind::Concat(parts), Span::new(start, end));
            proof {
                if plain {
                    lemma_literal_chain(r, text, text.len());
                    assert(text.take(text.len() as int) =~= text);
                    assert forall|w: Seq<char>| matches_expr(r, w) <==> w == text by {
                        assert(matches_expr(r, w) == matches_concat(r, text.len(), w));
                    }
                    assert forall|i: int| 0 <= i < parts@.len() implies no_anchor(#[trigger] parts@[i]) by {
                        assert(parts@[i].kind == ExprKind::Literal(text[i]));
                    }
                }
                lemma_parts_match_concat(r, parts@.len() as nat);
                assert forall|w: Seq<char>| #[trigger] matches_expr(r, w) == concat_has(c, first, a, dot, w) by {
                    assert(matches_expr(r, w) == matches_concat(r, parts@.len() as nat, w));
                }
            }
            Ok(r)
        }
    }

    fn parse_repeat(&mut self) -> (r: Result<Expr, FrontendError>)
        requires
            old(self).wf(),
            old(self).pos < old(self).chars.len(),
        ensures
            final(self).advanced_from(old(self)),
            final(self).pos > old(self).pos,
            r matches Ok(e) ==> expr_wf(e, old(self).alphabet(), old(self).max_repeat()),
            plain_from(old(self).chars@, old(self).pos as int, old(self).alphabet()) ==> (r matches Ok(e)
                && e.kind == ExprKind::Literal(old(self).chars@[old(self).pos as int].1) && final(self).pos
                == old(self).pos + 1),
            (r matches Ok(e) ==> final(self).pos == repeat_end(old(self).chars@, old(self).pos as int, old(self).alphabet())
                && forall|w: Seq<char>| #[trigger] matches_expr(e, w) == repeat_has(old(self).chars@, old(self).pos as int, old(self).alphabet(), old(self).dot(), w)),
            r is Ok <==> grammar::repeat_ok(old(self).chars@, old(self).pos as int, old(self).alphabet(), old(self).max_repeat()),
            grammar::atom_anchor_free(old(self).chars@, old(self).pos as int, old(self).alphabet()) ==> (r matches Ok(e) ==> no_anchor(e)),
        decreases old(self).chars.len() - old(self).pos, 1nat,
    {
        let atom = self.parse_atom()?;
        let ghost quantifier_start_pos = self.pos as int;
        let (quantifier_start, ch) = match self.peek() {
            Some(found) => found,
            None => return Ok(atom),
        };
        proof {
            assert(self.chars@[self.pos as int].0 + utf8_width(self.chars@[self.pos as int].1) <= self.input_len);
        }
        let (min, max, quantifier_end) = if ch == '*' {
            self.bump();
            (0usize, None, quantifier_start + 1)
        } else if ch == '+' {
            self.bump();
            (1usize, None, quantifier_start + 1)
        } else if ch == '?' {
            self.bump();
            (0usize, Some(1usize), quantifier_start + 1)
        } else if ch == '{' {
            self.parse_braced_quantifier()?
        } else {
            return Ok(atom);
        };
        if let Some((offset, suffix)) = self.peek() {
            proof {
                assert(self.chars@[self.pos as int].0 + utf8_width(self.chars@[self.pos as int].1)
                    <= self.input_len);
            }
            if suffix == '?' || suffix == '+' {
                return Err(
                    FrontendError::unsupported(
                        text3(
                            "lazy or possessive quantifier suffix ",
                            debug_char(suffix),
                            " is not supported",
                        ),
                        Span::new(offset, offset + 1),
                    ).with_hint(
                        "remove the suffix; language relations ignore backtracking preference".to_owned(),
                    ),
                );
            }
            if suffix == '*' || suffix == '{' {
                return Err(
                    FrontendError::syntax(
                        text3("multiple quantifiers are not allowed; found ", debug_char(suffix), ""),
                        Span::new(offset, offset + len_utf8(suffix)),
                    ),
                );
            }
        }
        let span = atom.span.join(Span::new(quantifier_start, quantifier_end));
        let ghost body = atom;
        let res = Expr::new(ExprKind::Repeat { expr: Box::new(atom), min, max }, span);
        proof {
            let c = old(self).chars@;
            let p = old(self).pos as int;
            let a = old(self).alphabet();
            let dot = old(self).dot();
            let q = quantifier_start_pos;
            assert(c[q].1 == ch);
            assert(quantified(c, q));
            assert(atom_end(c, p, a) == q);
            assert(*res.kind->expr == body);
            assert(forall|u: Seq<char>| #[trigger] matches_expr(body, u) == atom_has(c, p, a, dot, u));
            assert(res.kind->min == min && res.kind->max == max);
            assert forall|n: nat| #[trigger] quantifier_allows(c, q, n) == crate::ast::copies_allowed(min, max, n) by {}
            assert forall|w: Seq<char>| #[trigger] matches_expr(res, w) == repeat_has(c, p, a, dot, w) by {
                if matches_expr(res, w) {
                    let n = choose|n: nat| #[trigger] crate::ast::copies_allowed(min, max, n) && crate::ast::matches_power(res, n, w);
                    lemma_power_atom(res, c, p, a, dot, n);
                    assert(quantifier_allows(c, q, n) && grammar::atom_power(c, p, a, dot, n, w));
                }
                if repeat_has(c, p, a, dot, w) {
                    let n = choose|n: nat| #[trigger] quantifier_allows(c, q, n) && grammar::atom_power(c, p, a, dot, n, w);
                    lemma_power_atom(res, c, p, a, dot, n);
                    assert(crate::ast::copies_allowed(min, max, n) && crate::ast::matches_power(res, n, w));
                }
            }
        }
        Ok(res)
    }

    /// Parse `{m}`, `{m,}` or `{m,n}` starting at the opening brace.
    fn parse_braced_quantifier(&mut self) -> (r: Result<(usize, Option<usize>, usize), FrontendError>)
        requires
            old(self).wf(),
            old(self).pos < old(self).chars.len(),
        ensures
            final(self).advanced_from(old(self)),
            final(self).pos > old(self).pos,
            r matches Ok((min, max, _end)) ==> match max {
                Some(m) => min <= m && m <= old(self).max_repeat(),
                None => min <= old(self).max_repeat(),
            },
            r matches Ok((min, max, _end)) ==> final(self).pos == grammar::brace_end(old(self).chars@, old(self).pos as int)
                && min == grammar::brace_min(old(self).chars@, old(self).pos as int) && match max {
                Some(m) => grammar::brace_max(old(self).chars@, old(self).pos as int) == Some(m as int),
                None => grammar::brace_max(old(self).chars@, old(self).pos as int) is None,
            },
            r is Ok <==> grammar::brace_ok(old(self).chars@, old(self).pos as int, old(self).max_repeat()),
    {
        let (start, _) = self.bump().unwrap();
        let min = match self.parse_number()? {
            Some(value) => value,
            None => {
                let end = self.current_offset();
                return Err(
                    FrontendError::syntax(
                        "expected a decimal lower bound after '{'".to_owned(),
                        Span::new(start, end),
                    ).with_hint("use forms such as {2}, {2,}, or {2,5}".to_owned()),
                );
            },
        };
        let max = match self.peek() {
            Some((offset, ch)) => {
                proof {
                    assert(self.chars@[self.pos as int].0 + utf8_width(self.chars@[self.pos as int].1)
                        <= self.input_len);
                }
                if ch == '}' {
                    Some(min)
                } else if ch == ',' {
                    self.bump();
                    self.parse_number()?
                } else {
                    return Err(
                        FrontendError::syntax(
                            text3("expected ',' or '}', found ", debug_char(ch), ""),
                            Span::new(offset, offset + len_utf8(ch)),
                        ),
                    );
                }
            },
            None => {
                return Err(
                    FrontendError::syntax(
                        "unterminated repetition".to_owned(),
                        Span::new(start, self.input_len),
                    ),
                );
            },
        };
        let (end_start, end_ch) = match self.bump() {
            Some(found) => found,
            None => {
                return Err(
                    FrontendError::syntax(
                        "unterminated repetition".to_owned(),
                        Span::new(start, self.input_len),
                    ),
                );
            },
        };
        proof {
            assert(self.chars@[self.pos - 1].0 + utf8_width(self.chars@[self.pos - 1].1) <= self.input_len);
        }
        if end_ch != '}' {
            return Err(
                FrontendError::syntax(
                    text3("expected '}', found ", debug_char(end_ch), ""),
                    Span::new(end_start, end_start + len_utf8(end_ch)),
                ),
            );
        }
        match max {
            Some(maximum) => {
                if maximum < min {
                    return Err(
                        FrontendError::syntax(
                            "repetition upper bound is smaller than lower bound".to_owned(),
                            Span::new(start, end_start + 1),
                        ),
                    );
                }
                if maximum > self.config.max_repeat {
                    return Err(
                        FrontendError::unsupported(
                            repeat_limit_message("upper", maximum, self.config.max_repeat),
                            Span::new(start, end_start + 1),
                        ),
                    );
                }
            },
            None => {
                if min > self.config.max_repeat {
                    return Err(
                        FrontendError::unsupported(
                            repeat_limit_message("lower", min, self.config.max_repeat),
                            Span::new(start, end_start + 1),
                        ),
                    );
                }
            },
        }
        Ok((min, max, end_start + 1))
    }

    /// Read a maximal run of decimal digits.
    ///
    /// `None` when no digit comes next (nothing is consumed); the run's
    /// value otherwise; a syntax error when the value does not fit in a
    /// `usize`.
    fn parse_number(&mut self) -> (r: Result<Option<usize>, FrontendError>)
        requires
            old(self).wf(),
        ensures
            final(self).advanced_from(old(self)),
            r matches Ok(None) ==> final(self).pos == old(self).pos && (old(self).pos < old(self).chars.len()
                ==> digit_value(old(self).chars@[old(self).pos as int].1) is None),
            r matches Ok(Some(v)) ==> final(self).pos > old(self).pos && v == decimal_value(
                chars_between(old(self).chars@, old(self).pos as int, final(self).pos as int),
            ) && (final(self).pos < final(self).chars.len() ==> digit_value(
                final(self).chars@[final(self).pos as int].1,
            ) is None),
            r matches Err(e) ==> e.kind == FrontendErrorKind::Syntax,
            r is Ok ==> final(self).pos == grammar::digit_end(old(self).chars@, old(self).pos as int),
            r is Err <==> decimal_value(
                chars_between(old(self).chars@, old(self).pos as int, grammar::digit_end(old(self).chars@, old(self).pos as int)),
            ) > usize::MAX,
    {
        let ghost first = self.pos;
        let start = self.current_offset();
        let mut value: usize = 0;
        let mut found = false;
        loop
            invariant
                self.advanced_from(old(self)),
                first == old(self).pos,
                found <==> self.pos > first,
                forall|i: int| first <= i < self.pos ==> (#[trigger] digit_value(self.chars@[i].1)) is Some,
                value == decimal_value(chars_between(self.chars@, first as int, self.pos as int)),
            ensures
                self.advanced_from(old(self)),
                found <==> self.pos > first,
                value == decimal_value(chars_between(self.chars@, first as int, self.pos as int)),
                self.pos < self.chars.len() ==> digit_value(self.chars@[self.pos as int].1) is None,
                forall|i: int| first <= i < self.pos ==> (#[trigger] digit_value(self.chars@[i].1)) is Some,
            decreases self.chars.len() - self.pos,
        {
            let (offset, ch) = match self.peek() {
                Some(found_char) => found_char,
                None => break,
            };
            let digit = match decimal_digit(ch) {
                Some(d) => d,
                None => break,
            };
            proof {
                assert(self.chars@[self.pos as int].0 + utf8_width(self.chars@[self.pos as int].1) <= self.input_len);
                let next = chars_between(self.chars@, first as int, self.pos + 1);
                assert(next.drop_last() =~= chars_between(self.chars@, first as int, self.pos as int));
                assert(next.last() == ch);
            }
            let scaled = value.checked_mul(10);
            let next_value = match scaled {
                Some(s) => s.checked_add(digit as usize),
                None => None,
            };
            match next_value {
                Some(v) => {
                    value = v;
                },
                None => {
                    proof {
                        let c = self.chars@;
                        grammar::lemma_digit_run(c, first as int);
                        let f = grammar::digit_end(c, first as int);
                        assert(digit_value(c[self.pos as int].1) is Some);
                        if f <= self.pos {
                            assert(digit_value(c[f].1) is Some);
                        }
                        assert forall|i: int| first <= i < f implies (#[trigger] digit_value(c[i].1)) is Some by {}
                        grammar::lemma_decimal_grows(c, first as int, self.pos + 1, f);
                        assert(decimal_value(chars_between(c, first as int, self.pos + 1)) == value * 10 + digit);
                    }
                    return Err(
                        FrontendError::syntax(
                            "repetition bound overflows the representable range".to_owned(),
                            Span::new(start, offset + len_utf8(ch)),
                        ).with_hint(
                            "use a smaller bound no greater than the platform usize maximum".to_owned(),
                        ),
                    );
                },
            }
            found = true;
            self.bump();
        }
        proof {
            grammar::lemma_digit_end(self.chars@, first as int, self.pos as int);
        }
        if found {
            Ok(Some(value))
        } else {
            Ok(None)
        }
    }

    fn parse_atom(&mut self) -> (r: Result<Expr, FrontendError>)
        requires
            old(self).wf(),
            old(self).pos < old(self).chars.len(),
        ensures
            final(self).advanced_from(old(self)),
            final(self).pos > old(self).pos,
            r matches Ok(e) ==> expr_wf(e, old(self).alphabet(), old(self).max_repeat()),
            plain_char(old(self).chars@[old(self).pos as int].1, old(self).alphabet()) ==> (r matches Ok(e)
                && e.kind == ExprKind::Literal(old(self).chars@[old(self).pos as int].1) && final(self).pos
                == old(self).pos + 1),
            (r matches Ok(e) ==> final(self).pos == atom_end(old(self).chars@, old(self).pos as int, old(self).alphabet())
                && forall|w: Seq<char>| #[trigger] matches_expr(e, w) == atom_has(old(self).chars@, old(self).pos as int, old(self).alphabet(), old(self).dot(), w)),
            r is Ok <==> grammar::atom_ok(old(self).chars@, old(self).pos as int, old(self).alphabet(), old(self).max_repeat()),
            grammar::atom_anchor_free(old(self).chars@, old(self).pos as int, old(self).alphabet()) ==> (r matches Ok(e) ==> no_anchor(e)),
        decreases old(self).chars.len() - old(self).pos, 0nat,
    {
        let (start, ch) = self.bump().unwrap();
        proof {
            assert(self.chars@[self.pos - 1].0 + utf8_width(self.chars@[self.pos - 1].1) <= self.input_len);
        }
        let end = start + len_utf8(ch);
        if ch == '(' {
            if self.next_is('?') {
                let next = self.chars[self.pos].0;
                proof {
                    assert(self.chars@[self.pos as int].0 + utf8_width(self.chars@[self.pos as int].1)
                        <= self.input_len);
                }
                return Err(
                    FrontendError::unsupported(
                        "lookaround, inline flags, and non-capturing group prefixes are not supported".to_owned(),
                        Span::new(start, next + 1),
                    ).with_hint(
                        "use a plain capturing group; capture identity has no semantic effect".to_owned(),
                    ),
                );
            }
            let inner = self.parse_alt()?;
            let (close_start, close) = match self.bump() {
                Some(found) => found,
                None => {
                    return Err(
                        FrontendError::syntax(
                            "unterminated group".to_owned(),
                            Span::new(start, self.input_len),
                        ),
                    );
                },
            };
            proof {
                assert(self.chars@[self.pos - 1].0 + utf8_width(self.chars@[self.pos - 1].1) <= self.input_len);
            }
            if close != ')' {
                return Err(
                    FrontendError::syntax(
                        text3("expected ')', found ", debug_char(close), ""),
                        Span::new(close_start, close_start + len_utf8(close)),
                    ),
                );
            }
            let grouped = Expr::new(inner.kind, Span::new(start, close_start + 1));
            proof {
                lemma_same_kind(grouped, inner);
            }
            Ok(grouped)
        } else if ch == '[' {
            let r = self.parse_class(start);
            proof {
                if r is Ok {
                    let e = r->Ok_0;
                    let set = e.kind->CharSet_0;
                    assert forall|w: Seq<char>| #[trigger] matches_expr(e, w) == atom_has(
                        old(self).chars@,
                        old(self).pos as int,
                        old(self).alphabet(),
                        old(self).dot(),
                        w,
                    ) by {
                        if w.len() == 1 {
                            assert(set.has(w[0] as int) == class_set_has(old(self).chars@, old(self).pos + 1, old(self).alphabet(), w[0] as int));
                        }
                    }
                }
            }
            r
        } else if ch == '.' {
            let set = CharSet::any(self.config.alphabet, self.config.dot_matches_newline);
            Ok(Expr::new(ExprKind::CharSet(set), Span::new(start, end)))
        } else if ch == '\\' {
            let r = self.parse_escape(false);
            proof {
                if r is Ok {
                    let e = r->Ok_0;
                    let c2 = old(self).chars@[old(self).pos + 1].1;
                    assert(c2 == self.char_at(old(self).pos + 1));
                    assert forall|w: Seq<char>| #[trigger] matches_expr(e, w) == atom_has(
                        old(self).chars@,
                        old(self).pos as int,
                        old(self).alphabet(),
                        old(self).dot(),
                        w,
                    ) by {
                        if shorthand_escape(c2) {
                            let set = e.kind->CharSet_0;
                            if w.len() == 1 {
                                assert(set.has(w[0] as int) == shorthand_has(c2, old(self).alphabet(), w[0] as int));
                            }
                        }
                    }
                }
            }
            r
        } else if ch == '^' {
            Ok(Expr::new(ExprKind::AnchorStart, Span::new(start, end)))
        } else if ch == '$' {
            Ok(Expr::new(ExprKind::AnchorEnd, Span::new(start, end)))
        } else if ch == '*' || ch == '+' || ch == '?' || ch == '{' {
            Err(
                FrontendError::syntax(
                    text3("quantifier ", debug_char(ch), " has no preceding atom"),
                    Span::new(start, end),
                ),
            )
        } else if ch == ')' {
            Err(FrontendError::syntax("unmatched ')'".to_owned(), Span::new(start, end)))
        } else {
            self.literal_expr(ch, Span::new(start, end))
        }
    }

    /// Parse the character after a backslash (already consumed).
    fn parse_escape(&mut self, in_class: bool) -> (r: Result<Expr, FrontendError>)
        requires
            old(self).wf(),
            old(self).pos > 0,
        ensures
            final(self).advanced_from(old(self)),
            r matches Ok(e) ==> expr_wf(e, old(self).alphabet(), old(self).max_repeat()) && (
            e.kind is Literal || e.kind is CharSet),
            r matches Ok(e) ==> (e.kind matches ExprKind::Literal(c) ==> old(self).pos < old(self).chars.len()
                && c == escape_literal(old(self).chars@[old(self).pos as int].1, in_class)),
            final(self).pos == if old(self).pos < old(self).chars.len() {
                old(self).pos + 1
            } else {
                old(self).pos as int
            },
            r is Ok <==> old(self).pos < old(self).chars.len() && escape_ok(old(self).char_at(old(self).pos as int), in_class),
            r matches Ok(e) ==> (shorthand_escape(old(self).char_at(old(self).pos as int)) ==> (e.kind matches ExprKind::CharSet(
                set,
            ) && forall|v: int| set.has(v) <==> shorthand_has(old(self).char_at(old(self).pos as int), old(self).alphabet(), v))),
            r matches Ok(e) ==> (!shorthand_escape(old(self).char_at(old(self).pos as int)) ==> e.kind == ExprKind::Literal(
                escape_literal(old(self).char_at(old(self).pos as int), in_class),
            )),
            r matches Err(err) ==> err.kind == if old(self).pos < old(self).chars.len() {
                FrontendErrorKind::Unsupported
            } else {
                FrontendErrorKind::Syntax
            },
    {
        let alphabet = self.config.alphabet;
        let slash_start = self.chars[self.pos - 1].0;
        let (start, escaped) = match self.bump() {
            Some(found) => found,
            None => {
                return Err(
                    FrontendError::syntax(
                        "trailing backslash".to_owned(),
                        Span::new(slash_start, self.input_len),
                    ),
                );
            },
        };
        proof {
            assert(self.chars@[self.pos - 1].0 + utf8_width(self.chars@[self.pos - 1].1) <= self.input_len);
        }
        let span = Span::new(slash_start, start + len_utf8(escaped));
        if escaped == 'd' || escaped == 'D' || escaped == 'w' || escaped == 'W' || escaped == 's' || escaped
            == 'S' {
            let base = if escaped == 'd' || escaped == 'D' {
                CharSet::ascii_digits()
            } else if escaped == 'w' || escaped == 'W' {
                CharSet::ascii_word()
            } else {
                CharSet::ascii_space()
            };
            let set = if escaped == 'D' || escaped == 'W' || escaped == 'S' {
                base.complement(alphabet)
            } else {
                base
            };
            proof {
                assert forall|v: int| set.has(v) implies alphabet_has(alphabet, v) by {
                    if escaped == 'd' || escaped == 'w' || escaped == 's' {
                        assert(0 <= v <= 0x7f);
                    }
                }
            }
            return Ok(Expr::new(ExprKind::CharSet(set), span));
        }
        let literal = if escaped == 'n' {
            '\n'
        } else if escaped == 'r' {
            '\r'
        } else if escaped == 't' {
            '\t'
        } else if escaped == '0' {
            '\0'
        } else if '1' <= escaped && escaped <= '9' {
            return Err(
                FrontendError::unsupported(
                    "backreferences are not regular and are not supported".to_owned(),
                    span,
                ),
            );
        } else if escaped == 'b' && in_class {
            '\u{0008}'
        } else if escaped == 'b' {
            return Err(
                FrontendError::unsupported("word-boundary assertions are not supported".to_owned(), span),
            );
        } else if !in_class && (escaped == 'A' || escaped == 'z' || escaped == 'Z' || escaped == 'G') {
            return Err(
                FrontendError::unsupported("this zero-width assertion is not supported".to_owned(), span),
            );
        } else if is_escapable_metachar(escaped) {
            escaped
        } else {
            return Err(
                FrontendError::unsupported(
                    text3("escape \\", char_text(escaped), " is not supported"),
                    span,
                ).with_hint(
                    "use a literal character, an escaped metacharacter, or a documented shorthand class".to_owned(),
                ),
            );
        };
        self.literal_expr(literal, span)
    }

    /// A literal in the configured alphabet.
    fn literal_expr(&self, ch: char, span: Span) -> (r: Result<Expr, FrontendError>)
        ensures
            r is Ok <==> alphabet_has(self.alphabet(), ch as int),
            r matches Ok(e) ==> e.kind == ExprKind::Literal(ch) && e.span == span,
            r matches Err(e) ==> e.kind == FrontendErrorKind::Unsupported,
    {
        if self.config.alphabet == Alphabet::Ascii && (ch as u32) > 0x7f {
            return Err(
                FrontendError::unsupported(
                    text3("non-ASCII literal ", debug_char(ch), " is outside the configured ASCII alphabet"),
                    span,
                ).with_hint("use --alphabet unicode to analyze this literal".to_owned()),
            );
        }
        Ok(Expr::new(ExprKind::Literal(ch), span))
    }

    /// Parse a bracketed class; the opening bracket is already consumed.
    fn parse_class(&mut self, class_start: usize) -> (r: Result<Expr, FrontendError>)
        requires
            old(self).wf(),
            class_start <= old(self).input_len,
        ensures
            final(self).advanced_from(old(self)),
            r matches Ok(e) ==> expr_wf(e, old(self).alphabet(), old(self).max_repeat()) && e.kind is CharSet,
            r is Ok <==> class_ok(
                old(self).chars@,
                class_body_start(old(self).chars@, old(self).pos as int),
                false,
                old(self).alphabet(),
            ),
            r matches Ok(e) ==> (e.kind matches ExprKind::CharSet(set) && forall|v: int|
                set.has(v) <==> class_set_has(old(self).chars@, old(self).pos as int, old(self).alphabet(), v)),
            r matches Ok(e) ==> final(self).pos == class_close(
                old(self).chars@,
                class_body_start(old(self).chars@, old(self).pos as int),
                false,
                old(self).alphabet(),
            ) + 1,
    {
        let ghost chars = self.chars@;
        let ghost alph = self.alphabet();
        let ghost body = class_body_start(self.chars@, self.pos as int);
        let alphabet = self.config.alphabet;
        let negated = if self.next_is('^') {
            self.bump();
            true
        } else {
            false
        };
        let mut set = CharSet::empty();
        let mut saw_item = false;
        loop
            invariant
                self.advanced_from(old(self)),
                alphabet == old(self).alphabet(),
                class_start <= self.input_len,
                chars == old(self).chars@,
                alph == alphabet,
                body == class_body_start(chars, old(self).pos as int),
                negated <==> body != old(self).pos,
                !saw_item ==> self.pos == body,
                class_ok(chars, body, false, alph) == class_ok(chars, self.pos as int, saw_item, alph),
                class_ok(chars, body, false, alph) ==> class_close(chars, body, false, alph) == class_close(
                    chars,
                    self.pos as int,
                    saw_item,
                    alph,
                ),
                forall|v: int| class_has(chars, body, false, alph, v) <==> (set.has(v) || class_has(chars, self.pos as int, saw_item, alph, v)),
            decreases self.chars.len() - self.pos,
        {
            let ghost p = self.pos as int;
            let (offset, ch) = match self.peek() {
                Some(found) => found,
                None => {
                    return Err(
                        FrontendError::syntax(
                            "unterminated character class".to_owned(),
                            Span::new(class_start, self.input_len),
                        ),
                    );
                },
            };
            proof {
                assert(self.chars@[self.pos as int].0 + utf8_width(self.chars@[self.pos as int].1) <= self.input_len);
            }
            if ch == ']' && saw_item {
                self.bump();
                let result = if negated {
                    set.complement(alphabet)
                } else {
                    set.clipped(alphabet)
                };
                proof {
                    assert(class_ok(chars, p, saw_item, alph));
                    assert forall|v: int| !class_has(chars, p, saw_item, alph, v) by {}
                    assert(class_close(chars, p, saw_item, alph) == p);
                }
                return Ok(Expr::new(ExprKind::CharSet(result), Span::new(class_start, offset + 1)));
            }
            let ghost was_saw = saw_item;
            let first = match self.parse_class_atom(class_start, saw_item) {
                Ok(atom) => atom,
                Err(error) => {
                    proof {
                        assert(!class_ok(chars, p, saw_item, alph));
                    }
                    return Err(error);
                },
            };
            let ghost p1 = self.pos as int;
            proof {
                assert(p1 == class_atom_end(chars, p, was_saw));
                assert forall|v: int| first.set.has(v) <==> class_atom_has(chars, p, was_saw, alph, v) by {
                    if first.literal is None {
                        assert(chars[p + 1].1 == self.char_at(p + 1));
                    }
                }
            }
            saw_item = true;
            let hyphen_next = self.next_is('-');
            let closes_after = match self.peek_n(1) {
                Some((_, ']')) => true,
                None => true,
                _ => false,
            };
            proof {
                assert((hyphen_next && !closes_after) == range_follows(chars, p1));
            }
            if hyphen_next && !closes_after {
                let (hyphen_offset, _) = self.bump().unwrap();
                let second = match self.parse_class_atom(class_start, true) {
                    Ok(atom) => atom,
                    Err(error) => {
                        proof {
                            assert(!class_ok(chars, p, was_saw, alph));
                        }
                        return Err(error);
                    },
                };
                let (left, right) = match (first.literal, second.literal) {
                    (Some(left), Some(right)) => (left, right),
                    _ => {
                        proof {
                            assert(!class_ok(chars, p, was_saw, alph));
                        }
                        return Err(
                            FrontendError::unsupported(
                                "character-class ranges require literal endpoints".to_owned(),
                                Span::new(hyphen_offset, second.span.end),
                            ),
                        );
                    },
                };
                if left > right {
                    proof {
                        assert(!class_ok(chars, p, was_saw, alph));
                    }
                    return Err(
                        FrontendError::syntax(
                            reversed_range_message(left, right),
                            first.span.join(second.span),
                        ),
                    );
                }
                let ghost before = set;
                set = set.union(&CharSet::from_interval(left, right));
                proof {
                    let p2 = self.pos as int;
                    assert(p2 == class_atom_end(chars, p1 + 1, true));
                    assert(class_ok(chars, p, was_saw, alph) == class_ok(chars, p2, true, alph));
                    assert(class_ok(chars, p, was_saw, alph) ==> class_close(chars, p, was_saw, alph) == class_close(chars, p2, true, alph));
                    assert forall|v: int| class_has(chars, p, was_saw, alph, v) == ((left as int <= v <= right as int) || class_has(chars, p2, true, alph, v)) by {}
                    assert forall|v: int| class_has(chars, body, false, alph, v) <==> (set.has(v) || class_has(chars, p2, true, alph, v)) by {
                        assert(class_has(chars, body, false, alph, v) <==> (before.has(v) || class_has(chars, p, was_saw, alph, v)));
                    }
                }
            } else {
                let ghost before = set;
                set = set.union(&first.set);
                proof {
                    assert forall|v: int| class_has(chars, body, false, alph, v) <==> (set.has(v) || class_has(chars, p1, true, alph, v)) by {
                        assert(class_has(chars, body, false, alph, v) <==> (before.has(v) || class_has(chars, p, was_saw, alph, v)));
                        assert(class_has(chars, p, was_saw, alph, v) == (class_atom_has(chars, p, was_saw, alph, v) || class_has(chars, p1, true, alph, v)));
                    }
                    assert(class_ok(chars, p, was_saw, alph) == class_ok(chars, p1, true, alph));
                    assert(class_ok(chars, p, was_saw, alph) ==> class_close(chars, p, was_saw, alph) == class_close(chars, p1, true, alph));
                    assert forall|v: int| class_has(chars, p, was_saw, alph, v) == (class_atom_has(chars, p, was_saw, alph, v) || class_has(chars, p1, true, alph, v)) by {}
                }
            }
        }
    }

    fn parse_class_atom(&mut self, class_start: usize, saw_item: bool) -> (r: Result<ClassAtom, FrontendError>)
        requires
            old(self).wf(),
            class_start <= old(self).input_len,
        ensures
            final(self).advanced_from(old(self)),
            r is Ok ==> final(self).pos > old(self).pos,
            r matches Ok(atom) ==> (atom.literal matches Some(c) ==> forall|v: int| atom.set.has(v) <==> v == c as int),
            r is Ok <==> class_atom_ok(old(self).chars@, old(self).pos as int, saw_item, old(self).alphabet()),
            r matches Ok(atom) ==> final(self).pos == class_atom_end(old(self).chars@, old(self).pos as int, saw_item),
            r matches Ok(atom) ==> atom.literal == class_atom_literal(old(self).chars@, old(self).pos as int, saw_item),
            r matches Ok(atom) ==> (atom.literal is None ==> forall|v: int|
                atom.set.has(v) <==> shorthand_has(old(self).char_at(old(self).pos + 1), old(self).alphabet(), v)),
    {
        let (start, ch) = match self.bump() {
            Some(found) => found,
            None => {
                return Err(
                    FrontendError::syntax(
                        "unterminated character class".to_owned(),
                        Span::new(class_start, self.input_len),
                    ),
                );
            },
        };
        proof {
            assert(self.chars@[self.pos - 1].0 + utf8_width(self.chars@[self.pos - 1].1) <= self.input_len);
        }
        let span = Span::new(start, start + len_utf8(ch));
        if ch == ']' && !saw_item {
            return Ok(ClassAtom::literal(']', span));
        }
        if ch == '\\' {
            let escaped = self.parse_escape(true)?;
            return match escaped.kind {
                ExprKind::Literal(literal) => Ok(ClassAtom::literal(literal, escaped.span)),
                ExprKind::CharSet(set) => Ok(ClassAtom { set, literal: None, span: escaped.span }),
                _ => Err(FrontendError::syntax("malformed escape".to_owned(), escaped.span)),
            };
        }
        self.literal_expr(ch, span)?;
        Ok(ClassAtom::literal(ch, span))
    }
}

/// `\d \D \w \W \s \S`: escapes that stand for a class.
pub open spec fn shorthand_escape(c: char) -> bool {
    c == 'd' || c == 'D' || c == 'w' || c == 'W' || c == 's' || c == 'S'
}

/// The class a shorthand escape stands for holds `v`: ASCII digits, word
/// characters or whitespace, and for the upper-case letters the rest of the
/// alphabet.
pub open spec fn shorthand_has(c: char, alphabet: Alphabet, v: int) -> bool {
    let base = if c == 'd' || c == 'D' {
        '0' as int <= v <= '9' as int
    } else if c == 'w' || c == 'W' {
        '0' as int <= v <= '9' as int || 'A' as int <= v <= 'Z' as int || v == '_' as int || 'a' as int <= v <= 'z' as int
    } else {
        '\t' as int <= v <= '\r' as int || v == ' ' as int
    };
    if c == 'D' || c == 'W' || c == 'S' {
        alphabet_has(alphabet, v) && !base
    } else {
        base
    }
}

/// Metacharacters that a backslash turns into themselves.
pub open spec fn escapable(c: char) -> bool {
    c == '\\' || c == '.' || c == '+' || c == '*' || c == '?' || c == '(' || c == ')' || c == '[' || c == ']' || c == '{'
        || c == '}' || c == '|' || c == '^' || c == '$' || c == '-' || c == '/'
}

/// A backslash before `c` is accepted: a shorthand class, a control
/// character (`n r t 0`, and `b` inside a class), or an escaped
/// metacharacter.
pub open spec fn escape_ok(c: char, in_class: bool) -> bool {
    shorthand_escape(c) || c == 'n' || c == 'r' || c == 't' || c == '0' || (c == 'b' && in_class) || escapable(c)
}

/// The literal a supported escape stands for (shorthand classes aside).
pub open spec fn escape_literal(escaped: char, in_class: bool) -> char {
    if escaped == 'n' {
        '\n'
    } else if escaped == 'r' {
        '\r'
    } else if escaped == 't' {
        '\t'
    } else if escaped == '0' {
        '\0'
    } else if escaped == 'b' && in_class {
        '\u{0008}'
    } else {
        escaped
    }
}

/// Metacharacters that a backslash turns into themselves.
fn is_escapable_metachar(c: char) -> (r: bool)
    ensures
        r <==> escapable(c),
{
    c == '\\' || c == '.' || c == '+' || c == '*' || c == '?' || c == '(' || c == ')' || c == '[' || c == ']'
        || c == '{' || c == '}' || c == '|' || c == '^' || c == '$' || c == '-' || c == '/'
}


fn repeat_limit_message(which: &str, bound: usize, limit: usize) -> (r: String)
    ensures
        r@ == "repetition "@ + which@ + " bound "@ + decimal(bound as nat) + " exceeds configured max_repeat "@ + decimal(
            limit as nat,
        ),
{
    let mut out = "repetition ".to_owned();
    out.append(which);
    out.append(" bound ");
    out.append(display_usize(bound).as_str());
    out.append(" exceeds configured max_repeat ");
    out.append(display_usize(limit).as_str());
    out
}

fn reversed_range_message(left: char, right: char) -> (r: String)
    ensures
        r@ == "reversed character range "@ + char_debug(left) + "-"@ + char_debug(right),
{
    let mut out = "reversed character range ".to_owned();
    out.append(debug_char(left).as_str());
    out.append("-");
    out.append(debug_char(right).as_str());
    out
}

/// The characters of `chars[from..to]`.
pub open spec fn chars_between(chars: Seq<(usize, char)>, from: int, to: int) -> Seq<char> {
    chars.subrange(from, to).map_values(|p: (usize, char)| p.1)
}

/// Offsets that step by each character's width stay inside the input.
proof fn lemma_offsets_bounded(chars: Seq<(usize, char)>, len: int, i: int)
    requires
        0 <= i < chars.len(),
        forall|k: int| 0 <= k < chars.len() - 1 ==> chars[k + 1].0 == (#[trigger] chars[k]).0 + utf8_width(chars[k].1),
        chars.last().0 + utf8_width(chars.last().1) == len,
    ensures
        chars[i].0 + utf8_width(chars[i].1) <= len,
    decreases chars.len() - i,
{
    if i < chars.len() - 1 {
        lemma_offsets_bounded(chars, len, i + 1);
        assert(chars[i + 1].0 == chars[i].0 + utf8_width(chars[i].1));
        assert(utf8_width(chars[i + 1].1) >= 1);
    }
}

/// The item of a class that starts at `pos` is accepted: a leading `]`,
/// an escape that is accepted inside a class, or a character of the
/// alphabet.
pub open spec fn class_atom_ok(chars: Seq<(usize, char)>, pos: int, saw_item: bool, alphabet: Alphabet) -> bool {
    &&& 0 <= pos < chars.len()
    &&& if chars[pos].1 == ']' && !saw_item {
        true
    } else if chars[pos].1 == '\\' {
        pos + 1 < chars.len() && escape_ok(chars[pos + 1].1, true)
    } else {
        alphabet_has(alphabet, chars[pos].1 as int)
    }
}

/// Where a class item that starts at `pos` ends: after the escaped
/// character for a backslash, after the character otherwise.
pub open spec fn class_atom_end(chars: Seq<(usize, char)>, pos: int, saw_item: bool) -> int {
    if chars[pos].1 == '\\' && !(chars[pos].1 == ']' && !saw_item) {
        pos + 2
    } else {
        pos + 1
    }
}

/// The single character a class item stands for, if it is not a shorthand
/// class.
pub open spec fn class_atom_literal(chars: Seq<(usize, char)>, pos: int, saw_item: bool) -> Option<char> {
    if chars[pos].1 == ']' && !saw_item {
        Some(']')
    } else if chars[pos].1 == '\\' {
        if shorthand_escape(chars[pos + 1].1) {
            None
        } else {
            Some(escape_literal(chars[pos + 1].1, true))
        }
    } else {
        Some(chars[pos].1)
    }
}

/// The class item at `pos` holds `v`: its character, or the members of
/// its shorthand class.
pub open spec fn class_atom_has(chars: Seq<(usize, char)>, pos: int, saw_item: bool, alphabet: Alphabet, v: int) -> bool {
    match class_atom_literal(chars, pos, saw_item) {
        Some(c) => v == c as int,
        None => shorthand_has(chars[pos + 1].1, alphabet, v),
    }
}

/// After an item ending at `p`, a hyphen and something other than the
/// closing bracket follow: the item opens a range.
pub open spec fn range_follows(chars: Seq<(usize, char)>, p: int) -> bool {
    &&& 0 <= p < chars.len()
    &&& chars[p].1 == '-'
    &&& p + 1 < chars.len()
    &&& chars[p + 1].1 != ']'
}

/// The rest of a class body from `pos` on is accepted: items (single
/// items, or ranges between two literal items in order) up to a closing
/// `]` that follows at least one item.
pub open spec fn class_ok(chars: Seq<(usize, char)>, pos: int, saw_item: bool, alphabet: Alphabet) -> bool
    decreases chars.len() - pos,
{
    if pos < 0 || pos >= chars.len() {
        false
    } else if chars[pos].1 == ']' && saw_item {
        true
    } else if !class_atom_ok(chars, pos, saw_item, alphabet) {
        false
    } else {
        let p1 = class_atom_end(chars, pos, saw_item);
        if range_follows(chars, p1) {
            &&& class_atom_ok(chars, p1 + 1, true, alphabet)
            &&& class_atom_literal(chars, pos, saw_item) is Some
            &&& class_atom_literal(chars, p1 + 1, true) is Some
            &&& class_atom_literal(chars, pos, saw_item)->0 <= class_atom_literal(chars, p1 + 1, true)->0
            &&& class_ok(chars, class_atom_end(chars, p1 + 1, true), true, alphabet)
        } else {
            class_ok(chars, p1, true, alphabet)
        }
    }
}

/// The items of the class body from `pos` on hold `v`.
pub open spec fn class_has(chars: Seq<(usize, char)>, pos: int, saw_item: bool, alphabet: Alphabet, v: int) -> bool
    decreases chars.len() - pos,
{
    if pos < 0 || pos >= chars.len() || (chars[pos].1 == ']' && saw_item) || !class_atom_ok(chars, pos, saw_item, alphabet) {
        false
    } else {
        let p1 = class_atom_end(chars, pos, saw_item);
        if range_follows(chars, p1) {
            if class_atom_ok(chars, p1 + 1, true, alphabet) {
                (class_atom_literal(chars, pos, saw_item) matches Some(l) && class_atom_literal(chars, p1 + 1, true) matches Some(
                    h,
                ) && l as int <= v <= h as int) || class_has(chars, class_atom_end(chars, p1 + 1, true), true, alphabet, v)
            } else {
                false
            }
        } else {
            class_atom_has(chars, pos, saw_item, alphabet, v) || class_has(chars, p1, true, alphabet, v)
        }
    }
}

/// Where the closing bracket of the class body from `pos` on stands.
pub open spec fn class_close(chars: Seq<(usize, char)>, pos: int, saw_item: bool, alphabet: Alphabet) -> int
    decreases chars.len() - pos,
{
    if pos < 0 || pos >= chars.len() || (chars[pos].1 == ']' && saw_item) || !class_atom_ok(chars, pos, saw_item, alphabet) {
        pos
    } else {
        let p1 = class_atom_end(chars, pos, saw_item);
        if range_follows(chars, p1) {
            if class_atom_ok(chars, p1 + 1, true, alphabet) {
                class_close(chars, class_atom_end(chars, p1 + 1, true), true, alphabet)
            } else {
                pos
            }
        } else {
            class_close(chars, p1, true, alphabet)
        }
    }
}

/// Where a class body starts: after a `^` right behind the bracket.
pub open spec fn class_body_start(chars: Seq<(usize, char)>, pos: int) -> int {
    if 0 <= pos < chars.len() && chars[pos].1 == '^' {
        pos + 1
    } else {
        pos
    }
}

/// A class whose body starts at `pos` (after the bracket) holds `v`: the
/// alphabet's characters its items hold, or, after `^`, those they do not.
pub open spec fn class_set_has(chars: Seq<(usize, char)>, pos: int, alphabet: Alphabet, v: int) -> bool {
    let body = class_body_start(chars, pos);
    if body != pos {
        alphabet_has(alphabet, v) && !class_has(chars, body, false, alphabet, v)
    } else {
        alphabet_has(alphabet, v) && class_has(chars, body, false, alphabet, v)
    }
}

struct ClassAtom {
    set: CharSet,
    literal: Option<char>,
    span: Span,
}

impl ClassAtom {
    fn literal(ch: char, span: Span) -> (r: Self)
        ensures
            r.literal == Some(ch),
            r.span == span,
            forall|v: int| r.set.has(v) <==> v == ch as int,
    {
        Self { set: CharSet::singleton(ch), literal: Some(ch), span }
    }
}

/// Accept anchors only at the outer full-expression boundary.
fn validate_anchors(expr: &Expr) -> (r: Result<(), FrontendError>)
    ensures
        r is Ok <==> anchors_ok(*expr),
{
    match &expr.kind {
        ExprKind::Concat(parts) => {
            let mut index: usize = 0;
            while index < parts.len()
                invariant
                    index <= parts.len(),
                    expr.kind == ExprKind::Concat(*parts),
                    forall|i: int| 0 <= i < index ==> #[trigger] outer_part_ok(parts@, i),
                decreases parts.len() - index,
            {
                let part = &parts[index];
                match &part.kind {
                    ExprKind::AnchorStart => {
                        if index != 0 {
                            proof {
                                lemma_concat_part_refused(*expr, *parts, index as int);
                            }
                            return Err(
                                FrontendError::unsupported(
                                    "'^' is only supported at the beginning of the whole regex".to_owned(),
                                    part.span,
                                ),
                            );
                        }
                    },
                    ExprKind::AnchorEnd => {
                        if index + 1 != parts.len() {
                            proof {
                                lemma_concat_part_refused(*expr, *parts, index as int);
                            }
                            return Err(
                                FrontendError::unsupported(
                                    "'$' is only supported at the end of the whole regex".to_owned(),
                                    part.span,
                                ),
                            );
                        }
                    },
                    _ => {
                        let checked = reject_nested_anchor(part);
                        if checked.is_err() {
                            proof {
                                lemma_concat_part_refused(*expr, *parts, index as int);
                            }
                            return checked;
                        }
                    },
                }
                proof {
                    assert(outer_part_ok(parts@, index as int));
                }
                index += 1;
            }
            Ok(())
        },
        ExprKind::AnchorStart => Ok(()),
        ExprKind::AnchorEnd => Ok(()),
        _ => reject_nested_anchor(expr),
    }
}

fn reject_nested_anchor(expr: &Expr) -> (r: Result<(), FrontendError>)
    ensures
        r is Ok <==> no_anchor(*expr),
    decreases expr,
{
    match &expr.kind {
        ExprKind::AnchorStart => Err(
            FrontendError::unsupported(
                "anchors are only supported at the outer full-expression boundary".to_owned(),
                expr.span,
            ),
        ),
        ExprKind::AnchorEnd => Err(
            FrontendError::unsupported(
                "anchors are only supported at the outer full-expression boundary".to_owned(),
                expr.span,
            ),
        ),
        ExprKind::Concat(parts) => reject_nested_in(parts),
        ExprKind::Alt(parts) => reject_nested_in(parts),
        ExprKind::Repeat { expr: inner, .. } => reject_nested_anchor(inner),
        _ => Ok(()),
    }
}

fn reject_nested_in(parts: &Vec<Expr>) -> (r: Result<(), FrontendError>)
    ensures
        r is Ok <==> forall|i: int| 0 <= i < parts@.len() ==> no_anchor(#[trigger] parts@[i]),
    decreases parts,
{
    let mut index: usize = 0;
    while index < parts.len()
        invariant
            index <= parts.len(),
            forall|i: int| 0 <= i < index ==> no_anchor(#[trigger] parts@[i]),
        decreases parts.len() - index,
    {
        reject_nested_anchor(&parts[index])?;
        index += 1;
    }
    Ok(())
}

/// The supported-syntax summary printed by `regexrel syntax`.
pub fn syntax_help() -> (r: String)
    ensures
        r@ == SYNTAX_HELP@,
{
    SYNTAX_HELP.to_owned()
}

/// The text of the supported-syntax summary.
pub const SYNTAX_HELP: &'static str = "Supported regex subset (full-string semantics)

Atoms:
  literal characters        abc
  grouping                  (ab|cd)
  alternation               a|b
  wildcard                  .        (newline excluded unless configured)
  character classes         [abc] [a-z] [^0-9]
  escapes                    \\\\ \\n \\r \\t \\0 \\d \\D \\w \\W \\s \\S
  boundary anchors           ^...$   (optional under full-string semantics)

Quantifiers:
  *, +, ?, {m}, {m,}, {m,n}

A `{` that doesn't form one of those three forms (reversed bounds, a
non-numeric body, unterminated) is a syntax error, not a literal `{` --
unlike JS, Python, and Rust's `regex` crate. Escape it (\\{) for a literal.

Not supported:
  backreferences, lookaround, inline flags, lazy/possessive quantifiers,
  word-boundary assertions (\\b outside a class), Unicode property escapes,
  or PCRE conditionals.

Inside a class, \\b has no meaning as a boundary assertion and instead
matches the literal backspace character U+0008 -- e.g. [\\b] -- the same
reading every mainstream engine (JS, Python, PCRE, ICU, .NET, Rust's
`regex` crate) gives it, for the same reason.

ASCII mode gives \\d/\\w/\\s their ASCII meanings. Unicode mode expands the
alphabet for literals, dot, and negated classes, but those shorthand classes
remain ASCII-defined in v0.1.
";

/// How a refused pattern is reported: the message and its byte span.
pub open spec fn frontend_error_text(e: FrontendError) -> Seq<char> {
    e.message@ + " at bytes "@ + crate::text::decimal(e.span_start as nat) + ".."@ + crate::text::decimal(e.span_end as nat)
}

impl FrontendError {
    /// The error as a one-line message.
    pub fn describe(&self) -> (r: String)
        ensures
            r@ == frontend_error_text(*self),
    {
        let mut out = self.message.clone();
        out.append(" at bytes ");
        out.append(crate::text::display_usize(self.span_start).as_str());
        out.append("..");
        out.append(crate::text::display_usize(self.span_end).as_str());
        out
    }
}

} // verus!
