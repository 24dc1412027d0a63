//! Compact Graphviz labels for character sets.
use super::{in_ivs, is_scalar, ivs_wf, lemma_canonical, CharSet, Interval};
use crate::config::{alphabet_has, Alphabet};
use crate::text::{char_text, concat3};
use vstd::prelude::*;

verus! {

/// A control character (general category Cc): U+0000..U+001F and
/// U+007F..U+009F.
pub open spec fn is_control(v: int) -> bool {
    (0 <= v <= 0x1f) || (0x7f <= v <= 0x9f)
}

/// The upper-case hexadecimal digit for `d`.
pub open spec fn hex_digit(d: int) -> char {
    if d < 10 {
        crate::text::digit_char(d)
    } else if d == 10 {
        'A'
    } else if d == 11 {
        'B'
    } else if d == 12 {
        'C'
    } else if d == 13 {
        'D'
    } else if d == 14 {
        'E'
    } else {
        'F'
    }
}

/// `U+` and four upper-case hexadecimal digits of `v` (below 0x10000).
pub open spec fn code_point_text(v: int) -> Seq<char> {
    seq!['U', '+', hex_digit(v / 4096 % 16), hex_digit(v / 256 % 16), hex_digit(v / 16 % 16), hex_digit(v % 16)]
}

fn hex_char(d: u32) -> (r: char)
    requires
        d < 16,
    ensures
        r == hex_digit(d as int),
{
    if d == 0 {
        '0'
    } else if d == 1 {
        '1'
    } else if d == 2 {
        '2'
    } else if d == 3 {
        '3'
    } else if d == 4 {
        '4'
    } else if d == 5 {
        '5'
    } else if d == 6 {
        '6'
    } else if d == 7 {
        '7'
    } else if d == 8 {
        '8'
    } else if d == 9 {
        '9'
    } else if d == 10 {
        'A'
    } else if d == 11 {
        'B'
    } else if d == 12 {
        'C'
    } else if d == 13 {
        'D'
    } else if d == 14 {
        'E'
    } else {
        'F'
    }
}

/// `format!("U+{:04X}", v)` for a value below 0x10000.
fn code_point(v: u32) -> (r: String)
    requires
        v < 0x10000,
    ensures
        r@ == code_point_text(v as int),
{
    let mut out = "U+".to_owned();
    out.append(char_text(hex_char(v / 4096 % 16)).as_str());
    out.append(char_text(hex_char(v / 256 % 16)).as_str());
    out.append(char_text(hex_char(v / 16 % 16)).as_str());
    out.append(char_text(hex_char(v % 16)).as_str());
    proof {
        reveal_strlit("U+");
    }
    out
}

/// How a character is written on an edge.
pub open spec fn dot_char_text(c: char) -> Seq<char> {
    if c == '\n' {
        "\\n"@
    } else if c == '\r' {
        "\\r"@
    } else if c == '\t' {
        "\\t"@
    } else if c == '\0' {
        "\\0"@
    } else if c == ' ' {
        "SP"@
    } else if is_control(c as int) {
        code_point_text(c as int)
    } else {
        seq![c]
    }
}

/// How a character is written inside a class.
pub open spec fn class_char_text(c: char) -> Seq<char> {
    if c == '\n' {
        "\\n"@
    } else if c == '\r' {
        "\\r"@
    } else if c == '\t' {
        "\\t"@
    } else if c == '\0' {
        "\\0"@
    } else if c == '\\' {
        "\\\\"@
    } else if c == ']' {
        "\\]"@
    } else if c == '^' {
        "\\^"@
    } else if c == '-' {
        "\\-"@
    } else if c == ' ' {
        "SP"@
    } else if is_control(c as int) {
        code_point_text(c as int)
    } else {
        seq![c]
    }
}

fn control(ch: char) -> (r: bool)
    ensures
        r == is_control(ch as int),
{
    let v = ch as u32;
    v <= 0x1f || (0x7f <= v && v <= 0x9f)
}

/// Write a character on an edge.
pub fn format_dot_char(ch: char) -> (r: String)
    ensures
        r@ == dot_char_text(ch),
{
    if ch == '\n' {
        "\\n".to_owned()
    } else if ch == '\r' {
        "\\r".to_owned()
    } else if ch == '\t' {
        "\\t".to_owned()
    } else if ch == '\0' {
        "\\0".to_owned()
    } else if ch == ' ' {
        "SP".to_owned()
    } else if control(ch) {
        code_point(ch as u32)
    } else {
        char_text(ch)
    }
}

/// Write a character inside a class.
pub fn format_class_char(ch: char) -> (r: String)
    ensures
        r@ == class_char_text(ch),
{
    if ch == '\n' {
        "\\n".to_owned()
    } else if ch == '\r' {
        "\\r".to_owned()
    } else if ch == '\t' {
        "\\t".to_owned()
    } else if ch == '\0' {
        "\\0".to_owned()
    } else if ch == '\\' {
        "\\\\".to_owned()
    } else if ch == ']' {
        "\\]".to_owned()
    } else if ch == '^' {
        "\\^".to_owned()
    } else if ch == '-' {
        "\\-".to_owned()
    } else if ch == ' ' {
        "SP".to_owned()
    } else if control(ch) {
        code_point(ch as u32)
    } else {
        char_text(ch)
    }
}

/// The scalar value of a character.
pub open spec fn char_value(c: char) -> int {
    c as int
}

/// The character whose scalar value is `v`.
pub open spec fn char_of(v: int) -> char {
    choose|c: char| #[trigger] char_value(c) == v
}

/// How an interval is written inside a class; nothing when an end is not a
/// character.
pub open spec fn interval_text(iv: Interval) -> Seq<char> {
    if !is_scalar(iv.start as int) || !is_scalar(iv.end as int) {
        Seq::empty()
    } else if iv.start == iv.end {
        class_char_text(char_of(iv.start as int))
    } else if iv.end == iv.start + 1 {
        class_char_text(char_of(iv.start as int)) + class_char_text(char_of(iv.end as int))
    } else {
        class_char_text(char_of(iv.start as int)) + "-"@ + class_char_text(char_of(iv.end as int))
    }
}

/// The body of a class listing the intervals in order.
pub open spec fn body_text(ivs: Seq<Interval>) -> Seq<char>
    decreases ivs.len(),
{
    if ivs.len() == 0 {
        Seq::empty()
    } else {
        body_text(ivs.drop_last()) + interval_text(ivs.last())
    }
}

proof fn lemma_char_of(c: char)
    ensures
        char_of(c as int) == c,
{
    assert(char_value(c) == c as int);
    let d = char_of(c as int);
    assert(char_value(d) == c as int);
}

/// The body of a class for the set's intervals.
pub fn format_class_body(set: &CharSet) -> (r: String)
    ensures
        r@ == body_text(set.spec_intervals()),
{
    let intervals = set.intervals();
    let mut out = String::new();
    let mut i: usize = 0;
    while i < intervals.len()
        invariant
            intervals@ == set.spec_intervals(),
            i <= intervals@.len(),
            out@ == body_text(intervals@.subrange(0, i as int)),
        decreases intervals@.len() - i,
    {
        let interval = intervals[i];
        proof {
            let next = intervals@.subrange(0, i + 1);
            assert(next.drop_last() =~= intervals@.subrange(0, i as int));
            assert(next.last() == interval);
        }
        match (super::char_from_u32(interval.start), super::char_from_u32(interval.end)) {
            (Some(start), Some(end)) => {
                proof {
                    lemma_char_of(start);
                    lemma_char_of(end);
                }
                if interval.start == interval.end {
                    out.append(format_class_char(start).as_str());
                } else if interval.start < interval.end && interval.end == interval.start + 1 {
                    out.append(format_class_char(start).as_str());
                    out.append(format_class_char(end).as_str());
                } else {
                    out.append(format_class_char(start).as_str());
                    out.append("-");
                    out.append(format_class_char(end).as_str());
                }
            },
            _ => {},
        }
        i += 1;
    }
    proof {
        assert(intervals@.subrange(0, i as int) =~= intervals@);
    }
    out
}

/// The set holds exactly the values that `p` holds of.
pub open spec fn holds_exactly(ivs: Seq<Interval>, p: spec_fn(int) -> bool) -> bool {
    forall|v: int| in_ivs(ivs, v) == p(v)
}

/// `v` is the only value the intervals hold.
pub open spec fn ivs_only(ivs: Seq<Interval>, v: int) -> bool {
    forall|w: int| in_ivs(ivs, w) <==> w == v
}

pub open spec fn any_of(a: Alphabet, dot: bool) -> spec_fn(int) -> bool {
    |v: int| alphabet_has(a, v) && (dot || v != '\n' as int)
}

pub open spec fn digit_of() -> spec_fn(int) -> bool {
    |v: int| '0' as int <= v <= '9' as int
}

pub open spec fn word_of() -> spec_fn(int) -> bool {
    |v: int| ('0' as int <= v <= '9' as int || 'A' as int <= v <= 'Z' as int || v == '_' as int || 'a' as int <= v <= 'z' as int)
}

pub open spec fn space_of() -> spec_fn(int) -> bool {
    |v: int| ('\t' as int <= v <= '\r' as int || v == ' ' as int)
}

/// The values of the alphabet that `p` does not hold of.
pub open spec fn outside_of(a: Alphabet, p: spec_fn(int) -> bool) -> spec_fn(int) -> bool {
    |v: int| alphabet_has(a, v) && !p(v)
}

/// The canonical interval list of the values `p` holds of.
pub open spec fn canonical_of(p: spec_fn(int) -> bool) -> Seq<Interval> {
    choose|ivs: Seq<Interval>| ivs_wf(ivs) && forall|v: int| in_ivs(ivs, v) == p(v)
}

/// The values of the dot's alphabet missing from `s`.
pub open spec fn rest_has(ivs: Seq<Interval>, a: Alphabet, dot: bool, v: int) -> bool {
    alphabet_has(a, v) && (dot || v != '\n' as int) && !in_ivs(ivs, v)
}

/// `v` is the only value missing from `s` in the dot's alphabet.
pub open spec fn rest_only(s: Seq<Interval>, a: Alphabet, dot: bool, v: int) -> bool {
    forall|w: int| #[trigger] rest_has(s, a, dot, w) == (w == v)
}

/// Number of bytes of a text in UTF-8, as `str::len` reports it.
pub open spec fn byte_len(s: Seq<char>) -> usize {
    vstd::utf8::encode_utf8(s).len() as usize
}

/// The compact label of a set, given by its canonical intervals: `∅`, `.`, a
/// shorthand or its complement, a single character, or a class, negated when
/// that is shorter.
pub open spec fn dot_label(s: Seq<Interval>, a: Alphabet, dot: bool) -> Seq<char> {
    if forall|v: int| !in_ivs(s, v) {
        "∅"@
    } else if holds_exactly(s, any_of(a, dot)) {
        "."@
    } else if holds_exactly(s, digit_of()) {
        "\\d"@
    } else if holds_exactly(s, word_of()) {
        "\\w"@
    } else if holds_exactly(s, space_of()) {
        "\\s"@
    } else if holds_exactly(s, outside_of(a, digit_of())) {
        "\\D"@
    } else if holds_exactly(s, outside_of(a, word_of())) {
        "\\W"@
    } else if holds_exactly(s, outside_of(a, space_of())) {
        "\\S"@
    } else if exists|v: int| is_scalar(v) && ivs_only(s, v) {
        dot_char_text(char_of(choose|v: int| is_scalar(v) && ivs_only(s, v)))
    } else {
        let positive = "["@ + body_text(s) + "]"@;
        let rest_ivs = canonical_of(|v: int| rest_has(s, a, dot, v));
        let single = "[^"@ + class_char_text(char_of(choose|v: int| is_scalar(v) && #[trigger] rest_only(s, a, dot, v))) + "]"@;
        let negated = "[^"@ + body_text(rest_ivs) + "]"@;
        if !(exists|v: int| #[trigger] rest_has(s, a, dot, v)) {
            positive
        } else if (exists|v: int| is_scalar(v) && #[trigger] rest_only(s, a, dot, v)) && byte_len(single) <= byte_len(positive) {
            single
        } else if byte_len(negated) < byte_len(positive) {
            negated
        } else {
            positive
        }
    }
}

proof fn lemma_holds(s: CharSet, t: CharSet, p: spec_fn(int) -> bool)
    requires
        forall|v: int| s.has(v) == t.has(v),
        forall|v: int| t.has(v) == p(v),
    ensures
        holds_exactly(s.spec_intervals(), p),
{
    assert forall|v: int| in_ivs(s.spec_intervals(), v) == p(v) by {
        assert(s.has(v) == t.has(v));
        assert(t.has(v) == p(v));
    }
}

impl CharSet {
    /// Compact Graphviz edge label for this set under `alphabet`: `.`, a
    /// shorthand (`\d`, `\w`, `\s` and their complements), a single
    /// character, or a class, negated when that spelling is shorter.
    #[verifier::rlimit(40)]
    pub fn to_dot_label(&self, alphabet: Alphabet, dot_matches_newline: bool) -> (r: String)
        ensures
            r@ == dot_label(self.spec_intervals(), alphabet, dot_matches_newline),
    {
        if self.is_empty() {
            proof {
                assert forall|v: int| !in_ivs(self.spec_intervals(), v) by {
                    assert(!self.has(v));
                }
            }
            return "∅".to_owned();
        }
        let any = Self::any(alphabet, dot_matches_newline);
        if self.same_set(&any) {
            proof {
                lemma_holds(*self, any, any_of(alphabet, dot_matches_newline));
            }
            return ".".to_owned();
        }
        let digits = Self::ascii_digits();
        if self.same_set(&digits) {
            proof {
                lemma_holds(*self, digits, digit_of());
            }
            return "\\d".to_owned();
        }
        let word = Self::ascii_word();
        if self.same_set(&word) {
            proof {
                lemma_holds(*self, word, word_of());
            }
            return "\\w".to_owned();
        }
        let space = Self::ascii_space();
        if self.same_set(&space) {
            proof {
                lemma_holds(*self, space, space_of());
            }
            return "\\s".to_owned();
        }
        let digits_c = digits.complement(alphabet);
        if self.same_set(&digits_c) {
            proof {
                lemma_holds(*self, digits_c, outside_of(alphabet, digit_of()));
            }
            return "\\D".to_owned();
        }
        let word_c = word.complement(alphabet);
        if self.same_set(&word_c) {
            proof {
                lemma_holds(*self, word_c, outside_of(alphabet, word_of()));
            }
            return "\\W".to_owned();
        }
        let space_c = space.complement(alphabet);
        if self.same_set(&space_c) {
            proof {
                lemma_holds(*self, space_c, outside_of(alphabet, space_of()));
            }
            return "\\S".to_owned();
        }
        proof {
            assert(!holds_exactly(self.spec_intervals(), any_of(alphabet, dot_matches_newline)));
        }
        if let Some(ch) = self.as_singleton() {
            proof {
                lemma_char_of(ch);
                vstd::utf8::char_is_scalar(ch);
                assert forall|w: int| in_ivs(self.spec_intervals(), w) <==> w == ch as int by {
                    assert(self.has(w) <==> w == ch as int);
                }
                assert(is_scalar(ch as int) && ivs_only(self.spec_intervals(), ch as int));
                let v = choose|v: int| is_scalar(v) && ivs_only(self.spec_intervals(), v);
                assert(self.has(v));
                assert(v == ch as int);
            }
            return format_dot_char(ch);
        }
        proof {
            assert forall|v: int| is_scalar(v) implies !ivs_only(self.spec_intervals(), v) by {
                if ivs_only(self.spec_intervals(), v) {
                    assert forall|w: int| self.has(w) <==> w == v by {
                        assert(in_ivs(self.spec_intervals(), w) <==> w == v);
                    }
                    assert(self.is_only(v));
                }
            }
        }
        let body = format_class_body(self);
        let positive = concat3("[", body.as_str(), "]");
        let complement = any.subtract(self);
        let ghost ivs = self.spec_intervals();
        let ghost rest = |v: int| rest_has(ivs, alphabet, dot_matches_newline, v);
        proof {
            assert(complement.wf());
            assert forall|v: int| in_ivs(complement.spec_intervals(), v) == rest(v) by {
                assert(complement.has(v) == rest_has(ivs, alphabet, dot_matches_newline, v));
            }
            let c = canonical_of(rest);
            assert(ivs_wf(c) && forall|v: int| in_ivs(c, v) == rest(v));
            lemma_canonical(c, complement.spec_intervals());
        }
        if !complement.is_empty() {
            if let Some(ch) = complement.as_singleton() {
                let negated = concat3("[^", format_class_char(ch).as_str(), "]");
                proof {
                    lemma_char_of(ch);
                    vstd::utf8::char_is_scalar(ch);
                    assert forall|w: int| #[trigger] rest_has(ivs, alphabet, dot_matches_newline, w) == (w == ch as int) by {
                        assert(complement.has(w) == rest_has(ivs, alphabet, dot_matches_newline, w));
                    }
                    assert(rest_only(ivs, alphabet, dot_matches_newline, ch as int));
                    let v = choose|v: int| is_scalar(v) && #[trigger] rest_only(ivs, alphabet, dot_matches_newline, v);
                    assert(rest_has(ivs, alphabet, dot_matches_newline, v) == (v == v));
                    assert(rest_has(ivs, alphabet, dot_matches_newline, v) == (v == ch as int));
                    assert(v == ch as int);
                    assert(complement.has(ch as int));
                    assert(rest_has(ivs, alphabet, dot_matches_newline, ch as int));
                }
                if negated.as_str().len() <= positive.as_str().len() {
                    proof {
                        assert(byte_len(negated@) <= byte_len(positive@));
                    }
                    return negated;
                }
            } else {
                proof {
                    if exists|v: int| is_scalar(v) && #[trigger] rest_only(ivs, alphabet, dot_matches_newline, v) {
                        let v = choose|v: int| is_scalar(v) && #[trigger] rest_only(ivs, alphabet, dot_matches_newline, v);
                        assert forall|w: int| complement.has(w) <==> w == v by {
                            assert(complement.has(w) == rest_has(ivs, alphabet, dot_matches_newline, w));
                        }
                        assert(complement.is_only(v));
                    }
                }
            }
            let negated = concat3("[^", format_class_body(&complement).as_str(), "]");
            if negated.as_str().len() < positive.as_str().len() {
                return negated;
            }
        } else {
            proof {
                assert forall|v: int| !#[trigger] rest_has(ivs, alphabet, dot_matches_newline, v) by {
                    assert(complement.has(v) == rest_has(ivs, alphabet, dot_matches_newline, v));
                }
            }
        }
        positive
    }
}

} // verus!
