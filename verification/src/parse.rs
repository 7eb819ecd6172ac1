//! The parser of formulas.
//!
//! Precedence: `~` binds tightest, then `|`, then `->`, which is
//! right-associative.  ASCII (`~ | ->`) and Unicode (`¬ ∨ ⊃ →`) operators are
//! accepted interchangeably.

use vstd::prelude::*;
use crate::expr::{Expr, Formula, implies_f};
use crate::text::{alphanumeric, char_is_alphanumeric, char_is_whitespace, is_whitespace, push_char};

verus! {

/// Why a text is not a formula.
#[derive(Debug, Clone, Copy, PartialEq, Eq, Structural)]
pub enum ParseError {
    /// A variable was expected at this (character) position of the text,
    /// after the Unicode operators were replaced by ASCII ones.
    ExpectedVariable { position: usize },
    /// A `(` was not closed.
    MissingParenthesis,
    /// The text goes on after a complete formula.
    TrailingText,
}

/// What parsing a part of a text gives: a formula and the position after it.
pub type Parsed = Result<(Formula, int), ParseError>;

/// The ASCII spelling of one character of the text.
pub open spec fn normalize_char(c: char) -> Seq<char> {
    if c == '\u{ac}' {
        seq!['~']
    } else if c == '\u{2228}' {
        seq!['|']
    } else if c == '\u{2283}' || c == '\u{2192}' {
        seq!['-', '>']
    } else {
        seq![c]
    }
}

/// The text with `¬`, `∨`, `⊃` and `→` replaced by `~`, `|`, `->` and `->`.
pub open spec fn normalize(s: Seq<char>) -> Seq<char>
    decreases s.len(),
{
    if s.len() == 0 {
        Seq::empty()
    } else {
        normalize(s.drop_last()) + normalize_char(s.last())
    }
}

/// A character that may stand in a variable's name.
pub open spec fn name_char(c: char) -> bool {
    alphanumeric(c) || c == '_'
}

/// The position of the first character at or after `p` that is not white space.
pub open spec fn skip_ws(s: Seq<char>, p: int) -> int
    decreases s.len() - p,
{
    if 0 <= p < s.len() && is_whitespace(s[p]) {
        skip_ws(s, p + 1)
    } else {
        p
    }
}

/// The end of the run of name characters that starts at `p`.
pub open spec fn name_end(s: Seq<char>, p: int) -> int
    decreases s.len() - p,
{
    if 0 <= p < s.len() && name_char(s[p]) {
        name_end(s, p + 1)
    } else {
        p
    }
}

/// After white space from `p`, is `tk` next?  With the position after `tk`,
/// or after the white space where it is not.
pub open spec fn eat(s: Seq<char>, p: int, tk: Seq<char>) -> (bool, int) {
    let q = skip_ws(s, p);
    if q + tk.len() <= s.len() && s.subrange(q, q + tk.len()) == tk {
        (true, q + tk.len())
    } else {
        (false, q)
    }
}

pub proof fn lemma_skip_ws(s: Seq<char>, p: int)
    requires
        0 <= p <= s.len(),
    ensures
        p <= skip_ws(s, p) <= s.len(),
        forall|i: int| p <= i < skip_ws(s, p) ==> is_whitespace(#[trigger] s[i]),
        skip_ws(s, p) < s.len() ==> !is_whitespace(s[skip_ws(s, p)]),
    decreases s.len() - p,
{
    if p < s.len() && is_whitespace(s[p]) {
        lemma_skip_ws(s, p + 1);
    }
}

pub proof fn lemma_name_end(s: Seq<char>, p: int)
    requires
        0 <= p <= s.len(),
    ensures
        p <= name_end(s, p) <= s.len(),
        forall|i: int| p <= i < name_end(s, p) ==> name_char(#[trigger] s[i]),
        name_end(s, p) < s.len() ==> !name_char(s[name_end(s, p)]),
    decreases s.len() - p,
{
    if p < s.len() && name_char(s[p]) {
        lemma_name_end(s, p + 1);
    }
}

/// An implication: a disjunction, then optionally `->` and an implication.
pub open spec fn parse_imp_at(s: Seq<char>, p: int) -> Parsed
    decreases s.len() - p, 4nat,
{
    if p < 0 || p > s.len() {
        Err(ParseError::TrailingText)
    } else {
        match parse_or_at(s, p) {
            Err(e) => Err(e),
            Ok((l, p1)) => if p1 < p || p1 > s.len() {
                Err(ParseError::TrailingText)
            } else {
                let (ok, p2) = eat(s, p1, seq!['-', '>']);
                if ok {
                    proof {
                        lemma_skip_ws(s, p1);
                    }
                    match parse_imp_at(s, p2) {
                        Err(e) => Err(e),
                        Ok((r, p3)) => Ok((implies_f(l, r), p3)),
                    }
                } else {
                    Ok((l, p2))
                }
            },
        }
    }
}

/// A disjunction: unary formulas separated by `|`, grouped to the left.
pub open spec fn parse_or_at(s: Seq<char>, p: int) -> Parsed
    decreases s.len() - p, 3nat,
{
    if p < 0 || p > s.len() {
        Err(ParseError::TrailingText)
    } else {
        match parse_unary_at(s, p) {
            Err(e) => Err(e),
            Ok((l, p1)) => if p1 < p || p1 > s.len() {
                Err(ParseError::TrailingText)
            } else {
                or_tail_at(s, p1, l)
            },
        }
    }
}

/// The rest of a disjunction whose first part is `left`.
pub open spec fn or_tail_at(s: Seq<char>, p: int, left: Formula) -> Parsed
    decreases s.len() - p, 2nat,
{
    if p < 0 || p > s.len() {
        Err(ParseError::TrailingText)
    } else {
        let (ok, p2) = eat(s, p, seq!['|']);
        if ok {
            proof {
                lemma_skip_ws(s, p);
            }
            match parse_unary_at(s, p2) {
                Err(e) => Err(e),
                Ok((r, p3)) => if p3 < p2 || p3 > s.len() {
                    Err(ParseError::TrailingText)
                } else {
                    or_tail_at(s, p3, Formula::Or(Box::new(left), Box::new(r)))
                },
            }
        } else {
            Ok((left, p2))
        }
    }
}

/// A unary formula: `~` and a unary formula, or an atom.
pub open spec fn parse_unary_at(s: Seq<char>, p: int) -> Parsed
    decreases s.len() - p, 1nat,
{
    if p < 0 || p > s.len() {
        Err(ParseError::TrailingText)
    } else {
        let (ok, p2) = eat(s, p, seq!['~']);
        proof {
            lemma_skip_ws(s, p);
        }
        if ok {
            match parse_unary_at(s, p2) {
                Err(e) => Err(e),
                Ok((e, p3)) => Ok((Formula::Not(Box::new(e)), p3)),
            }
        } else {
            parse_atom_at(s, p2)
        }
    }
}

/// An atom: a parenthesised implication, or a variable.
pub open spec fn parse_atom_at(s: Seq<char>, p: int) -> Parsed
    decreases s.len() - p, 0nat,
{
    if p < 0 || p > s.len() {
        Err(ParseError::TrailingText)
    } else {
        let (ok, p2) = eat(s, p, seq!['(']);
        if ok {
            proof {
                lemma_skip_ws(s, p);
            }
            match parse_imp_at(s, p2) {
                Err(e) => Err(e),
                Ok((e, p3)) => {
                    let (ok2, p4) = eat(s, p3, seq![')']);
                    if ok2 {
                        Ok((e, p4))
                    } else {
                        Err(ParseError::MissingParenthesis)
                    }
                },
            }
        } else {
            let q = skip_ws(s, p2);
            let end = name_end(s, q);
            if end == q {
                Err(ParseError::ExpectedVariable { position: q as usize })
            } else {
                Ok((Formula::Var(s.subrange(q, end)), end))
            }
        }
    }
}

/// What parsing `text` gives: the formula, or why there is none.
pub open spec fn parse_spec(text: Seq<char>) -> Result<Formula, ParseError> {
    let s = normalize(text);
    match parse_imp_at(s, 0) {
        Err(e) => Err(e),
        Ok((e, p)) => if skip_ws(s, p) == s.len() {
            Ok(e)
        } else {
            Err(ParseError::TrailingText)
        },
    }
}


/// A character that the text of a formula shows as itself: not one of the
/// Unicode operators that parsing replaces.
pub open spec fn plain_char(c: char) -> bool {
    normalize_char(c) == seq![c]
}

pub open spec fn plain(s: Seq<char>) -> bool {
    forall|i: int| 0 <= i < s.len() ==> plain_char(#[trigger] s[i])
}

/// A variable name that the parser reads back: not empty, made of
/// alphanumeric characters and `_`.
pub open spec fn identifier(n: Seq<char>) -> bool {
    &&& n.len() > 0
    &&& forall|i: int| 0 <= i < n.len() ==> name_char(#[trigger] n[i])
}

/// Every variable of the formula has an identifier as its name.
pub open spec fn identifiers_only(f: Formula) -> bool
    decreases f,
{
    match f {
        Formula::Var(v) => identifier(v),
        Formula::Not(x) => identifiers_only(*x),
        Formula::Or(a, b) => identifiers_only(*a) && identifiers_only(*b),
    }
}

proof fn lemma_normalize_concat(a: Seq<char>, b: Seq<char>)
    ensures
        normalize(a + b) == normalize(a) + normalize(b),
    decreases b.len(),
{
    if b.len() == 0 {
        assert(a + b =~= a);
        assert(normalize(b) == Seq::<char>::empty());
        assert(normalize(a) + normalize(b) =~= normalize(a));
    } else {
        lemma_normalize_concat(a, b.drop_last());
        assert((a + b).drop_last() =~= a + b.drop_last());
        assert((a + b).last() == b.last());
        assert(normalize(a + b) == normalize(a + b.drop_last()) + normalize_char(b.last()));
        assert(normalize(a) + normalize(b) =~= normalize(a) + normalize(b.drop_last()) + normalize_char(b.last()));
    }
}

proof fn lemma_normalize_plain(s: Seq<char>)
    requires
        plain(s),
    ensures
        normalize(s) == s,
    decreases s.len(),
{
    if s.len() > 0 {
        let d = s.drop_last();
        assert(plain(d)) by {
            assert forall|i: int| 0 <= i < d.len() implies plain_char(#[trigger] d[i]) by {
                assert(d[i] == s[i]);
            }
        }
        lemma_normalize_plain(d);
        assert(plain_char(s[s.len() - 1]));
        assert(d.push(s.last()) =~= s);
    }
}

proof fn lemma_plain_concat(a: Seq<char>, b: Seq<char>)
    requires
        plain(a),
        plain(b),
    ensures
        plain(a + b),
{
    assert forall|i: int| 0 <= i < (a + b).len() implies plain_char(#[trigger] (a + b)[i]) by {
        if i < a.len() {
            assert((a + b)[i] == a[i]);
        } else {
            assert((a + b)[i] == b[i - a.len()]);
        }
    }
}

proof fn lemma_plain_literal(c: char)
    requires
        (c as u32) < 0x80,
    ensures
        plain(seq![c]),
{
    assert(plain_char(seq![c][0]));
}

/// The text of a formula with identifier names has no Unicode operator.
proof fn lemma_display_plain(f: Formula)
    requires
        identifiers_only(f),
    ensures
        plain(f.display()),
    decreases f,
{
    match f {
        Formula::Var(v) => {
            assert forall|i: int| 0 <= i < v.len() implies plain_char(#[trigger] v[i]) by {}
        },
        Formula::Not(x) => {
            lemma_display_plain(*x);
            lemma_plain_literal('~');
            lemma_plain_concat(seq!['~'], x.display());
        },
        Formula::Or(l, r) => {
            lemma_display_plain(*r);
            lemma_plain_literal('(');
            lemma_plain_literal(')');
            lemma_plain_literal(' ');
            lemma_plain_literal('-');
            lemma_plain_literal('>');
            lemma_plain_literal('|');
            assert(identifiers_only(*l));
            match *l {
                Formula::Not(a) => {
                    assert(identifiers_only(*a));
                    lemma_display_plain(*a);
                    let mid = seq![' ', '-', '>', ' '];
                    lemma_plain_concat(seq![' '], seq!['-']);
                    lemma_plain_concat(seq![' '] + seq!['-'], seq!['>']);
                    lemma_plain_concat(seq![' '] + seq!['-'] + seq!['>'], seq![' ']);
                    assert(seq![' '] + seq!['-'] + seq!['>'] + seq![' '] =~= mid);
                    lemma_plain_concat(seq!['('], a.display());
                    lemma_plain_concat(seq!['('] + a.display(), mid);
                    lemma_plain_concat(seq!['('] + a.display() + mid, r.display());
                    lemma_plain_concat(seq!['('] + a.display() + mid + r.display(), seq![')']);
                },
                _ => {
                    lemma_display_plain(*l);
                    let mid = seq![' ', '|', ' '];
                    lemma_plain_concat(seq![' '], seq!['|']);
                    lemma_plain_concat(seq![' '] + seq!['|'], seq![' ']);
                    assert(seq![' '] + seq!['|'] + seq![' '] =~= mid);
                    lemma_plain_concat(seq!['('], l.display());
                    lemma_plain_concat(seq!['('] + l.display(), mid);
                    lemma_plain_concat(seq!['('] + l.display() + mid, r.display());
                    lemma_plain_concat(seq!['('] + l.display() + mid + r.display(), seq![')']);
                },
            }
        },
    }
}

/// `d` stands in `s` from position `w` on.
pub open spec fn stands_at(s: Seq<char>, w: int, d: Seq<char>) -> bool {
    0 <= w && w + d.len() <= s.len() && s.subrange(w, w + d.len()) == d
}

/// Only white space stands in `s` from `p` to `w`.
pub open spec fn blank(s: Seq<char>, p: int, w: int) -> bool {
    0 <= p <= w <= s.len() && forall|i: int| p <= i < w ==> is_whitespace(#[trigger] s[i])
}

proof fn lemma_char_at(s: Seq<char>, w: int, d: Seq<char>, k: int)
    requires
        stands_at(s, w, d),
        0 <= k < d.len(),
    ensures
        s[w + k] == d[k],
{
    assert(s.subrange(w, w + d.len())[k] == s[w + k]);
}

proof fn lemma_stands_part(s: Seq<char>, w: int, d: Seq<char>, k: int, part: Seq<char>)
    requires
        stands_at(s, w, d),
        0 <= k,
        k + part.len() <= d.len(),
        d.subrange(k, k + part.len()) == part,
    ensures
        stands_at(s, w + k, part),
{
    assert(s.subrange(w + k, w + k + part.len()) =~= s.subrange(w, w + d.len()).subrange(k, k + part.len()));
}

proof fn lemma_skip_to(s: Seq<char>, p: int, w: int)
    requires
        blank(s, p, w),
        w == s.len() || !is_whitespace(s[w]),
    ensures
        skip_ws(s, p) == w,
    decreases w - p,
{
    if p < w {
        lemma_skip_to(s, p + 1, w);
    }
}

proof fn lemma_name_end_at(s: Seq<char>, w: int, v: Seq<char>)
    requires
        stands_at(s, w, v),
        forall|i: int| 0 <= i < v.len() ==> name_char(#[trigger] v[i]),
        w + v.len() == s.len() || !name_char(s[w + v.len()]),
    ensures
        name_end(s, w) == w + v.len(),
    decreases v.len(),
{
    if v.len() > 0 {
        lemma_char_at(s, w, v, 0);
        let rest = v.subrange(1, v.len() as int);
        let lrest: int = rest.len() as int;
        assert(v.subrange(1, 1 + lrest) == rest);
        lemma_stands_part(s, w, v, 1, rest);
        assert forall|i: int| 0 <= i < rest.len() implies name_char(#[trigger] rest[i]) by {
            assert(rest[i] == v[i + 1]);
        }
        lemma_name_end_at(s, w + 1, rest);
    }
}

proof fn lemma_eat_fails(s: Seq<char>, q: int, tk: Seq<char>)
    requires
        0 <= q <= s.len(),
        q == s.len() || !is_whitespace(s[q]),
        tk.len() >= 1,
        q == s.len() || s[q] != tk[0],
    ensures
        eat(s, q, tk) == (false, q),
{
    lemma_skip_to(s, q, q);
    if q + tk.len() <= s.len() {
        assert(s.subrange(q, q + tk.len())[0] == s[q]);
    }
}

proof fn lemma_eat_succeeds(s: Seq<char>, p: int, q: int, tk: Seq<char>)
    requires
        blank(s, p, q),
        q < s.len(),
        !is_whitespace(s[q]),
        stands_at(s, q, tk),
    ensures
        eat(s, p, tk) == (true, q + tk.len()),
{
    lemma_skip_to(s, p, q);
}

proof fn lemma_punctuation()
    ensures
        !name_char('~'),
        !name_char('('),
        !name_char(')'),
        !name_char(' '),
        is_whitespace(' '),
        !is_whitespace('~'),
        !is_whitespace('('),
        !is_whitespace(')'),
        !is_whitespace('-'),
        !is_whitespace('|'),
{
}

/// A formula's text, after white space, is read back as the formula by the
/// unary level of the parser, provided no name character follows it.
proof fn lemma_parse_unary_display(f: Formula, s: Seq<char>, p: int, w: int)
    requires
        identifiers_only(f),
        blank(s, p, w),
        stands_at(s, w, f.display()),
        w + f.display().len() == s.len() || !name_char(s[w + f.display().len()]),
    ensures
        parse_unary_at(s, p) == Ok::<(Formula, int), ParseError>((f, w + f.display().len())),
    decreases f, 2nat,
{
    lemma_punctuation();
    let d = f.display();
    let e = w + d.len();
    match f {
        Formula::Var(v) => {
            assert(identifier(v));
            lemma_char_at(s, w, d, 0);
            assert(name_char(v[0]) && !is_whitespace(v[0]));
            lemma_skip_to(s, p, w);
            lemma_eat_fails(s, w, seq!['~']);
            lemma_eat_fails(s, w, seq!['(']);
            assert forall|i: int| 0 <= i < v.len() implies name_char(#[trigger] v[i]) by {}
            lemma_name_end_at(s, w, v);
            assert(parse_atom_at(s, w) == Ok::<(Formula, int), ParseError>((f, e)));
        },
        Formula::Not(x) => {
            let dx = x.display();
            let lx: int = dx.len() as int;
            assert(d == seq!['~'] + dx);
            lemma_char_at(s, w, d, 0);
            assert(d.subrange(0, 1) =~= seq!['~']);
            lemma_stands_part(s, w, d, 0, seq!['~']);
            lemma_eat_succeeds(s, p, w, seq!['~']);
            assert(d.subrange(1, 1 + lx) =~= dx);
            lemma_stands_part(s, w, d, 1, dx);
            lemma_parse_unary_display(*x, s, w + 1, w + 1);
        },
        Formula::Or(l, r) => {
            lemma_char_at(s, w, d, 0);
            lemma_skip_to(s, p, w);
            lemma_eat_fails(s, w, seq!['~']);
            lemma_parse_paren_display(f, s, w);
        },
    }
}

/// The text of a disjunction, `(...)`, is read back by the atom level.
proof fn lemma_parse_paren_display(f: Formula, s: Seq<char>, w: int)
    requires
        f is Or,
        identifiers_only(f),
        stands_at(s, w, f.display()),
    ensures
        parse_atom_at(s, w) == Ok::<(Formula, int), ParseError>((f, w + f.display().len())),
    decreases f, 1nat,
{
    lemma_punctuation();
    let d = f.display();
    let e = w + d.len();
    let l = f->Or_0;
    let r = f->Or_1;
    lemma_char_at(s, w, d, 0);
    assert(d.subrange(0, 1) =~= seq!['(']);
    lemma_stands_part(s, w, d, 0, seq!['(']);
    lemma_skip_to(s, w, w);
    lemma_eat_succeeds(s, w, w, seq!['(']);
    lemma_char_at(s, w, d, d.len() - 1);
    assert(d.subrange(d.len() - 1, d.len() as int) =~= seq![')']);
    lemma_stands_part(s, w, d, d.len() - 1, seq![')']);
    assert(identifiers_only(*l));
    match *l {
        Formula::Not(a) => {
            lemma_parse_implication_body(f, *a, *r, s, w);
        },
        _ => {
            lemma_parse_disjunction_body(f, *l, *r, s, w);
        },
    }
    lemma_eat_succeeds(s, e - 1, e - 1, seq![')']);
}

/// Inside the parentheses of `(a -> r)` the top level reads `a -> r`.
proof fn lemma_parse_implication_body(f: Formula, a: Formula, r: Formula, s: Seq<char>, w: int)
    requires
        f == implies_f(a, r),
        identifiers_only(a),
        identifiers_only(r),
        stands_at(s, w, f.display()),
    ensures
        parse_imp_at(s, w + 1) == Ok::<(Formula, int), ParseError>((f, w + f.display().len() - 1)),
    decreases f, 0nat,
{
    lemma_punctuation();
    let d = f.display();
    let e = w + d.len();
    let da = a.display();
    let la: int = da.len() as int;
    let dr = r.display();
    let lr: int = dr.len() as int;
    let mid = seq![' ', '-', '>', ' '];
    assert(d == seq!['('] + da + mid + dr + seq![')']);
    let q = w + 1 + la;
    assert(d.subrange(1, 1 + la) =~= da);
    lemma_stands_part(s, w, d, 1, da);
    lemma_char_at(s, w, d, 1 + la);
    lemma_char_at(s, w, d, 2 + la);
    lemma_char_at(s, w, d, 4 + la);
    lemma_char_at(s, w, d, d.len() - 1);
    assert(d.subrange(2 + la, 4 + la) =~= seq!['-', '>']);
    lemma_stands_part(s, w, d, 2 + la, seq!['-', '>']);
    assert(d.subrange(5 + la, 5 + la + lr) =~= dr);
    lemma_stands_part(s, w, d, 5 + la, dr);
    // the antecedent, up to the space before `->`
    lemma_parse_unary_display(a, s, w + 1, w + 1);
    // no `|` after it: the white space is skipped up to `-`
    assert(blank(s, q, q + 1));
    lemma_skip_to(s, q, q + 1);
    lemma_eat_fails(s, q + 1, seq!['|']);
    assert(or_tail_at(s, q, a) == Ok::<(Formula, int), ParseError>((a, q + 1)));
    assert(parse_or_at(s, w + 1) == Ok::<(Formula, int), ParseError>((a, q + 1)));
    // `->`, then the consequent up to `)`
    lemma_eat_succeeds(s, q + 1, q + 1, seq!['-', '>']);
    assert(blank(s, q + 3, q + 4));
    lemma_parse_imp_display(r, s, q + 3, q + 4);
}

/// Inside the parentheses of `(l | r)` the top level reads `l | r`.
proof fn lemma_parse_disjunction_body(f: Formula, l: Formula, r: Formula, s: Seq<char>, w: int)
    requires
        f == Formula::Or(Box::new(l), Box::new(r)),
        l !is Not,
        identifiers_only(l),
        identifiers_only(r),
        stands_at(s, w, f.display()),
    ensures
        parse_imp_at(s, w + 1) == Ok::<(Formula, int), ParseError>((f, w + f.display().len() - 1)),
    decreases f, 0nat,
{
    lemma_punctuation();
    let d = f.display();
    let e = w + d.len();
    let dl = l.display();
    let ll: int = dl.len() as int;
    let dr = r.display();
    let lr: int = dr.len() as int;
    let mid = seq![' ', '|', ' '];
    assert(d == seq!['('] + dl + mid + dr + seq![')']);
    let q = w + 1 + ll;
    assert(d.subrange(1, 1 + ll) =~= dl);
    lemma_stands_part(s, w, d, 1, dl);
    lemma_char_at(s, w, d, 1 + ll);
    lemma_char_at(s, w, d, 2 + ll);
    lemma_char_at(s, w, d, 3 + ll);
    lemma_char_at(s, w, d, d.len() - 1);
    assert(d.subrange(2 + ll, 3 + ll) =~= seq!['|']);
    lemma_stands_part(s, w, d, 2 + ll, seq!['|']);
    assert(d.subrange(4 + ll, 4 + ll + lr) =~= dr);
    lemma_stands_part(s, w, d, 4 + ll, dr);
    // the left disjunct, up to the space before `|`
    lemma_parse_unary_display(l, s, w + 1, w + 1);
    // `|`, then the right disjunct up to `)`
    assert(blank(s, q, q + 1));
    lemma_eat_succeeds(s, q, q + 1, seq!['|']);
    assert(blank(s, q + 2, q + 3));
    lemma_parse_unary_display(r, s, q + 2, q + 3);
    lemma_eat_fails(s, e - 1, seq!['|']);
    assert(or_tail_at(s, e - 1, f) == Ok::<(Formula, int), ParseError>((f, e - 1)));
    assert(or_tail_at(s, q, l) == Ok::<(Formula, int), ParseError>((f, e - 1)));
    assert(parse_or_at(s, w + 1) == Ok::<(Formula, int), ParseError>((f, e - 1)));
    lemma_eat_fails(s, e - 1, seq!['-', '>']);
}

/// A formula's text, after white space, is read back as the formula by the
/// top level of the parser, provided the text ends there or `)` follows.
proof fn lemma_parse_imp_display(f: Formula, s: Seq<char>, p: int, w: int)
    requires
        identifiers_only(f),
        blank(s, p, w),
        stands_at(s, w, f.display()),
        w + f.display().len() == s.len() || s[w + f.display().len()] == ')',
    ensures
        parse_imp_at(s, p) == Ok::<(Formula, int), ParseError>((f, w + f.display().len())),
    decreases f, 3nat,
{
    lemma_punctuation();
    let e = w + f.display().len();
    lemma_parse_unary_display(f, s, p, w);
    lemma_eat_fails(s, e, seq!['|']);
    assert(or_tail_at(s, e, f) == Ok::<(Formula, int), ParseError>((f, e)));
    assert(parse_or_at(s, p) == Ok::<(Formula, int), ParseError>((f, e)));
    lemma_eat_fails(s, e, seq!['-', '>']);
}

/// Reading back what is shown: the text of a formula whose variables are
/// named by identifiers parses to that very formula.
pub proof fn law_parse_display(f: Formula)
    requires
        identifiers_only(f),
    ensures
        parse_spec(f.display()) == Ok::<Formula, ParseError>(f),
{
    let s = f.display();
    lemma_display_plain(f);
    lemma_normalize_plain(s);
    assert(s.subrange(0, s.len() as int) =~= s);
    lemma_parse_imp_display(f, s, 0, 0);
    lemma_skip_to(s, s.len() as int, s.len() as int);
}

proof fn lemma_normalize_is_plain(t: Seq<char>)
    ensures
        plain(normalize(t)),
    decreases t.len(),
{
    if t.len() > 0 {
        lemma_normalize_is_plain(t.drop_last());
        let c = t.last();
        let n = normalize_char(c);
        assert(plain(n)) by {
            assert forall|i: int| 0 <= i < n.len() implies plain_char(#[trigger] n[i]) by {}
        }
        lemma_plain_concat(normalize(t.drop_last()), n);
    }
}

/// ASCII and Unicode operators are interchangeable: a text parses exactly as
/// its ASCII spelling does.
pub proof fn law_parse_normalized(t: Seq<char>)
    ensures
        parse_spec(normalize(t)) == parse_spec(t),
{
    lemma_normalize_is_plain(t);
    lemma_normalize_plain(normalize(t));
}

/// `left | gs[0] | gs[1] | ...`, grouped to the left.
pub open spec fn or_fold_from(left: Formula, gs: Seq<Formula>) -> Formula
    decreases gs.len(),
{
    if gs.len() == 0 {
        left
    } else {
        or_fold_from(Formula::Or(Box::new(left), Box::new(gs[0])), gs.drop_first())
    }
}

/// The disjunction of the formulas `fs` (at least one), grouped to the left.
pub open spec fn or_fold(fs: Seq<Formula>) -> Formula {
    or_fold_from(fs[0], fs.drop_first())
}

/// The texts of the formulas `gs`, each preceded by ` | `.
pub open spec fn or_rest_text(gs: Seq<Formula>) -> Seq<char>
    decreases gs.len(),
{
    if gs.len() == 0 {
        Seq::empty()
    } else {
        seq![' ', '|', ' '] + gs[0].display() + or_rest_text(gs.drop_first())
    }
}

/// The texts of the formulas `fs` (at least one), separated by ` | `.
pub open spec fn or_text(fs: Seq<Formula>) -> Seq<char> {
    fs[0].display() + or_rest_text(fs.drop_first())
}

/// The texts `or_text` of the groups `css` (at least one), separated by ` -> `.
pub open spec fn imp_text(css: Seq<Seq<Formula>>) -> Seq<char>
    decreases css.len(),
{
    if css.len() <= 1 {
        or_text(css[0])
    } else {
        or_text(css[0]) + seq![' ', '-', '>', ' '] + imp_text(css.drop_first())
    }
}

/// The implications, grouped to the right, between the disjunctions of the
/// groups `css` (at least one).
pub open spec fn imp_fold(css: Seq<Seq<Formula>>) -> Formula
    decreases css.len(),
{
    if css.len() <= 1 {
        or_fold(css[0])
    } else {
        implies_f(or_fold(css[0]), imp_fold(css.drop_first()))
    }
}

proof fn lemma_stands_split(s: Seq<char>, w: int, a: Seq<char>, b: Seq<char>)
    requires
        stands_at(s, w, a + b),
    ensures
        stands_at(s, w, a),
        stands_at(s, w + a.len(), b),
{
    let la: int = a.len() as int;
    let lb: int = b.len() as int;
    assert((a + b).subrange(0, la) =~= a);
    assert((a + b).subrange(la, la + lb) =~= b);
    lemma_stands_part(s, w, a + b, 0, a);
    lemma_stands_part(s, w, a + b, la, b);
}

/// The rest of a disjunction, ` | g0 | g1 ...`, is read by `or_tail_at`.
proof fn lemma_or_rest_parse(s: Seq<char>, p: int, left: Formula, gs: Seq<Formula>)
    requires
        forall|k: int| 0 <= k < gs.len() ==> identifiers_only(#[trigger] gs[k]),
        stands_at(s, p, or_rest_text(gs)),
        p + or_rest_text(gs).len() == s.len() || !name_char(s[p + or_rest_text(gs).len()]),
        skip_ws(s, p + or_rest_text(gs).len()) == s.len() || s[skip_ws(s, p + or_rest_text(gs).len())] != '|',
    ensures
        or_tail_at(s, p, left) == Ok::<(Formula, int), ParseError>(
            (or_fold_from(left, gs), skip_ws(s, p + or_rest_text(gs).len())),
        ),
    decreases gs.len(),
{
    lemma_punctuation();
    if gs.len() == 0 {
        let q = skip_ws(s, p);
        lemma_skip_ws(s, p);
        if q + 1 <= s.len() {
            assert(s.subrange(q, q + 1)[0] == s[q]);
        }
        assert(eat(s, p, seq!['|']) == (false, q));
    } else {
        let g0 = gs[0];
        let d0 = g0.display();
        let rest = gs.drop_first();
        let r = or_rest_text(rest);
        let bar = seq![' ', '|', ' '];
        assert(or_rest_text(gs) == bar + d0 + r);
        lemma_stands_split(s, p, bar + d0, r);
        lemma_stands_split(s, p, bar, d0);
        lemma_char_at(s, p, bar, 0);
        lemma_char_at(s, p, bar, 1);
        lemma_char_at(s, p, bar, 2);
        assert(bar.subrange(1, 2) =~= seq!['|']);
        lemma_stands_part(s, p, bar, 1, seq!['|']);
        assert(blank(s, p, p + 1));
        lemma_eat_succeeds(s, p, p + 1, seq!['|']);
        assert(blank(s, p + 2, p + 3));
        let p3 = p + 3 + d0.len();
        if rest.len() > 0 {
            assert(r == bar + rest[0].display() + or_rest_text(rest.drop_first()));
            lemma_stands_split(s, p3, bar + rest[0].display(), or_rest_text(rest.drop_first()));
            lemma_stands_split(s, p3, bar, rest[0].display());
            lemma_char_at(s, p3, bar, 0);
        }
        lemma_parse_unary_display(g0, s, p + 2, p + 3);
        assert forall|k: int| 0 <= k < rest.len() implies identifiers_only(#[trigger] rest[k]) by {
            assert(rest[k] == gs[k + 1]);
        }
        lemma_or_rest_parse(s, p3, Formula::Or(Box::new(left), Box::new(g0)), rest);
    }
}

/// A disjunction's text `f0 | f1 | ...` is read by the disjunction level.
proof fn lemma_or_text_parse(s: Seq<char>, p: int, w: int, fs: Seq<Formula>)
    requires
        fs.len() >= 1,
        forall|k: int| 0 <= k < fs.len() ==> identifiers_only(#[trigger] fs[k]),
        blank(s, p, w),
        stands_at(s, w, or_text(fs)),
        w + or_text(fs).len() == s.len() || !name_char(s[w + or_text(fs).len()]),
        skip_ws(s, w + or_text(fs).len()) == s.len() || s[skip_ws(s, w + or_text(fs).len())] != '|',
    ensures
        parse_or_at(s, p) == Ok::<(Formula, int), ParseError>((or_fold(fs), skip_ws(s, w + or_text(fs).len()))),
{
    lemma_punctuation();
    let d0 = fs[0].display();
    let rest = fs.drop_first();
    let r = or_rest_text(rest);
    lemma_stands_split(s, w, d0, r);
    let p1 = w + d0.len();
    if rest.len() > 0 {
        let bar = seq![' ', '|', ' '];
        assert(r == bar + rest[0].display() + or_rest_text(rest.drop_first()));
        lemma_stands_split(s, p1, bar + rest[0].display(), or_rest_text(rest.drop_first()));
        lemma_stands_split(s, p1, bar, rest[0].display());
        lemma_char_at(s, p1, bar, 0);
    }
    assert(identifiers_only(fs[0]));
    lemma_parse_unary_display(fs[0], s, p, w);
    assert forall|k: int| 0 <= k < rest.len() implies identifiers_only(#[trigger] rest[k]) by {
        assert(rest[k] == fs[k + 1]);
    }
    lemma_or_rest_parse(s, p1, fs[0], rest);
}

/// A chain `D0 -> D1 -> ...` of disjunction texts that ends the text is read
/// by the implication level.
proof fn lemma_imp_text_parse(s: Seq<char>, p: int, w: int, css: Seq<Seq<Formula>>)
    requires
        css.len() >= 1,
        forall|i: int| 0 <= i < css.len() ==> #[trigger] css[i].len() >= 1,
        forall|i: int, k: int| 0 <= i < css.len() && 0 <= k < css[i].len() ==> identifiers_only(#[trigger] css[i][k]),
        blank(s, p, w),
        stands_at(s, w, imp_text(css)),
        w + imp_text(css).len() == s.len(),
    ensures
        parse_imp_at(s, p) == Ok::<(Formula, int), ParseError>((imp_fold(css), s.len() as int)),
    decreases css.len(),
{
    lemma_punctuation();
    let c0 = css[0];
    assert(c0.len() >= 1);
    assert forall|k: int| 0 <= k < c0.len() implies identifiers_only(#[trigger] c0[k]) by {
        assert(identifiers_only(css[0][k]));
    }
    let t0 = or_text(c0);
    let e0 = w + t0.len();
    if css.len() == 1 {
        lemma_skip_to(s, s.len() as int, s.len() as int);
        lemma_or_text_parse(s, p, w, c0);
        assert(eat(s, e0, seq!['-', '>']) == (false, e0));
    } else {
        let rest = css.drop_first();
        let arrow = seq![' ', '-', '>', ' '];
        assert(imp_text(css) == t0 + arrow + imp_text(rest));
        lemma_stands_split(s, w, t0 + arrow, imp_text(rest));
        lemma_stands_split(s, w, t0, arrow);
        lemma_char_at(s, e0, arrow, 0);
        lemma_char_at(s, e0, arrow, 1);
        lemma_char_at(s, e0, arrow, 3);
        assert(blank(s, e0, e0 + 1));
        lemma_skip_to(s, e0, e0 + 1);
        lemma_or_text_parse(s, p, w, c0);
        assert(arrow.subrange(1, 3) =~= seq!['-', '>']);
        lemma_stands_part(s, e0, arrow, 1, seq!['-', '>']);
        lemma_eat_succeeds(s, e0 + 1, e0 + 1, seq!['-', '>']);
        assert(blank(s, e0 + 3, e0 + 4));
        assert forall|i: int| 0 <= i < rest.len() implies #[trigger] rest[i].len() >= 1 by {
            assert(rest[i] == css[i + 1]);
        }
        assert forall|i: int, k: int| 0 <= i < rest.len() && 0 <= k < rest[i].len() implies identifiers_only(
            #[trigger] rest[i][k],
        ) by {
            assert(rest[i] == css[i + 1]);
            assert(identifiers_only(css[i + 1][k]));
        }
        lemma_imp_text_parse(s, e0 + 3, e0 + 4, rest);
    }
}

proof fn lemma_or_rest_plain(gs: Seq<Formula>)
    requires
        forall|k: int| 0 <= k < gs.len() ==> identifiers_only(#[trigger] gs[k]),
    ensures
        plain(or_rest_text(gs)),
    decreases gs.len(),
{
    if gs.len() > 0 {
        let rest = gs.drop_first();
        assert forall|k: int| 0 <= k < rest.len() implies identifiers_only(#[trigger] rest[k]) by {
            assert(rest[k] == gs[k + 1]);
        }
        lemma_or_rest_plain(rest);
        assert(identifiers_only(gs[0]));
        lemma_display_plain(gs[0]);
        let bar = seq![' ', '|', ' '];
        assert(plain(bar)) by {
            assert forall|i: int| 0 <= i < bar.len() implies plain_char(#[trigger] bar[i]) by {}
        }
        lemma_plain_concat(bar, gs[0].display());
        lemma_plain_concat(bar + gs[0].display(), or_rest_text(rest));
    }
}

proof fn lemma_imp_text_plain(css: Seq<Seq<Formula>>)
    requires
        css.len() >= 1,
        forall|i: int| 0 <= i < css.len() ==> #[trigger] css[i].len() >= 1,
        forall|i: int, k: int| 0 <= i < css.len() && 0 <= k < css[i].len() ==> identifiers_only(#[trigger] css[i][k]),
    ensures
        plain(imp_text(css)),
    decreases css.len(),
{
    let c0 = css[0];
    assert(c0.len() >= 1);
    assert(identifiers_only(css[0][0]));
    lemma_display_plain(c0[0]);
    let rest0 = c0.drop_first();
    assert forall|k: int| 0 <= k < rest0.len() implies identifiers_only(#[trigger] rest0[k]) by {
        assert(rest0[k] == c0[k + 1]);
        assert(identifiers_only(css[0][k + 1]));
    }
    lemma_or_rest_plain(rest0);
    lemma_plain_concat(c0[0].display(), or_rest_text(rest0));
    if css.len() > 1 {
        let rest = css.drop_first();
        assert forall|i: int| 0 <= i < rest.len() implies #[trigger] rest[i].len() >= 1 by {
            assert(rest[i] == css[i + 1]);
        }
        assert forall|i: int, k: int| 0 <= i < rest.len() && 0 <= k < rest[i].len() implies identifiers_only(
            #[trigger] rest[i][k],
        ) by {
            assert(rest[i] == css[i + 1]);
            assert(identifiers_only(css[i + 1][k]));
        }
        lemma_imp_text_plain(rest);
        let arrow = seq![' ', '-', '>', ' '];
        assert(plain(arrow)) by {
            assert forall|i: int| 0 <= i < arrow.len() implies plain_char(#[trigger] arrow[i]) by {}
        }
        lemma_plain_concat(or_text(c0), arrow);
        lemma_plain_concat(or_text(c0) + arrow, imp_text(rest));
    }
}

/// Precedence: `|` binds tighter than `->`, disjunctions group to the left
/// and implications to the right.  Formulas with identifier names, written
/// out and separated by ` | ` within groups and by ` -> ` between groups,
/// parse to the implication chain, grouped to the right, of the groups'
/// disjunctions, each grouped to the left; so an unparenthesised disjunction
/// stands as a whole on either side of `->`, and `a -> b -> c` is `a -> (b -> c)`.
pub proof fn law_precedence(css: Seq<Seq<Formula>>)
    requires
        css.len() >= 1,
        forall|i: int| 0 <= i < css.len() ==> #[trigger] css[i].len() >= 1,
        forall|i: int, k: int| 0 <= i < css.len() && 0 <= k < css[i].len() ==> identifiers_only(#[trigger] css[i][k]),
    ensures
        parse_spec(imp_text(css)) == Ok::<Formula, ParseError>(imp_fold(css)),
{
    let t = imp_text(css);
    lemma_imp_text_plain(css);
    lemma_normalize_plain(t);
    assert(t.subrange(0, t.len() as int) =~= t);
    assert(blank(t, 0, 0));
    lemma_imp_text_parse(t, 0, 0, css);
    lemma_skip_to(t, t.len() as int, t.len() as int);
}

proof fn lemma_shift_skip(pre: Seq<char>, t: Seq<char>, q: int)
    requires
        0 <= q,
    ensures
        skip_ws(pre + t, pre.len() + q) == pre.len() + skip_ws(t, q),
    decreases t.len() - q,
{
    if q < t.len() {
        assert((pre + t)[pre.len() + q] == t[q]);
        if is_whitespace(t[q]) {
            lemma_shift_skip(pre, t, q + 1);
        }
    }
}

proof fn lemma_shift_name(pre: Seq<char>, t: Seq<char>, q: int)
    requires
        0 <= q,
    ensures
        name_end(pre + t, pre.len() + q) == pre.len() + name_end(t, q),
    decreases t.len() - q,
{
    if q < t.len() {
        assert((pre + t)[pre.len() + q] == t[q]);
        if name_char(t[q]) {
            lemma_shift_name(pre, t, q + 1);
        }
    }
}

proof fn lemma_shift_eat(pre: Seq<char>, t: Seq<char>, q: int, tk: Seq<char>)
    requires
        0 <= q,
    ensures
        eat(pre + t, pre.len() + q, tk) == (eat(t, q, tk).0, pre.len() + eat(t, q, tk).1),
{
    lemma_shift_skip(pre, t, q);
    if q <= t.len() {
        lemma_skip_ws(t, q);
    }
    let r = skip_ws(t, q);
    assert(r >= q);
    let o = pre.len() as int;
    let k = tk.len() as int;
    if r + k <= t.len() {
        assert((pre + t).subrange(o + r, o + r + k) =~= t.subrange(r, r + k));
    }
}

/// Parsing is unaffected by text before the starting position: a part of
/// `t` that parses reads the same after `pre`, its end shifted.
proof fn lemma_shift_imp(pre: Seq<char>, t: Seq<char>, p: int)
    ensures
        parse_imp_at(t, p) matches Ok((f, e)) ==> p <= e <= t.len() && parse_imp_at(pre + t, pre.len() + p)
            == Ok::<(Formula, int), ParseError>((f, pre.len() + e)),
    decreases t.len() - p, 4nat,
{
    if 0 <= p <= t.len() {
        lemma_shift_or(pre, t, p);
        if let Ok((l, p1)) = parse_or_at(t, p) {
            lemma_skip_ws(t, p1);
            lemma_shift_eat(pre, t, p1, seq!['-', '>']);
            let (ok, p2) = eat(t, p1, seq!['-', '>']);
            if ok {
                lemma_shift_imp(pre, t, p2);
            }
        }
    }
}

proof fn lemma_shift_or(pre: Seq<char>, t: Seq<char>, p: int)
    ensures
        parse_or_at(t, p) matches Ok((f, e)) ==> p <= e <= t.len() && parse_or_at(pre + t, pre.len() + p)
            == Ok::<(Formula, int), ParseError>((f, pre.len() + e)),
    decreases t.len() - p, 3nat,
{
    if 0 <= p <= t.len() {
        lemma_shift_unary(pre, t, p);
        if let Ok((l, p1)) = parse_unary_at(t, p) {
            lemma_shift_tail(pre, t, p1, l);
        }
    }
}

proof fn lemma_shift_tail(pre: Seq<char>, t: Seq<char>, p: int, left: Formula)
    ensures
        or_tail_at(t, p, left) matches Ok((f, e)) ==> p <= e <= t.len() && or_tail_at(pre + t, pre.len() + p, left)
            == Ok::<(Formula, int), ParseError>((f, pre.len() + e)),
    decreases t.len() - p, 2nat,
{
    if 0 <= p <= t.len() {
        lemma_skip_ws(t, p);
        lemma_shift_eat(pre, t, p, seq!['|']);
        let (ok, p2) = eat(t, p, seq!['|']);
        if ok {
            lemma_shift_unary(pre, t, p2);
            if let Ok((r, p3)) = parse_unary_at(t, p2) {
                lemma_shift_tail(pre, t, p3, Formula::Or(Box::new(left), Box::new(r)));
            }
        }
    }
}

proof fn lemma_shift_unary(pre: Seq<char>, t: Seq<char>, p: int)
    ensures
        parse_unary_at(t, p) matches Ok((f, e)) ==> p <= e <= t.len() && parse_unary_at(pre + t, pre.len() + p)
            == Ok::<(Formula, int), ParseError>((f, pre.len() + e)),
    decreases t.len() - p, 1nat,
{
    if 0 <= p <= t.len() {
        lemma_skip_ws(t, p);
        lemma_shift_eat(pre, t, p, seq!['~']);
        let (ok, p2) = eat(t, p, seq!['~']);
        if ok {
            lemma_shift_unary(pre, t, p2);
        } else {
            lemma_shift_atom(pre, t, p2);
        }
    }
}

proof fn lemma_shift_atom(pre: Seq<char>, t: Seq<char>, p: int)
    ensures
        parse_atom_at(t, p) matches Ok((f, e)) ==> p <= e <= t.len() && parse_atom_at(pre + t, pre.len() + p)
            == Ok::<(Formula, int), ParseError>((f, pre.len() + e)),
    decreases t.len() - p, 0nat,
{
    if 0 <= p <= t.len() {
        lemma_skip_ws(t, p);
        lemma_shift_eat(pre, t, p, seq!['(']);
        let (ok, p2) = eat(t, p, seq!['(']);
        if ok {
            lemma_shift_imp(pre, t, p2);
            if let Ok((e, p3)) = parse_imp_at(t, p2) {
                lemma_skip_ws(t, p3);
                lemma_shift_eat(pre, t, p3, seq![')']);
            }
        } else {
            lemma_skip_ws(t, p2);
            let q = skip_ws(t, p2);
            lemma_shift_skip(pre, t, p2);
            lemma_shift_name(pre, t, q);
            lemma_name_end(t, q);
            let end = name_end(t, q);
            assert((pre + t).subrange(pre.len() + q, pre.len() + end) =~= t.subrange(q, end));
        }
    }
}

/// What may follow a part of a text without changing how it parses at the
/// disjunction level: white space that is no name character, then `-`.
pub open spec fn stops_disjunction(u: Seq<char>) -> bool {
    &&& u.len() >= 2
    &&& is_whitespace(u[0])
    &&& !name_char(u[0])
    &&& u[1] == '-'
}

proof fn lemma_ext_skip(s: Seq<char>, u: Seq<char>, q: int)
    requires
        0 <= q <= s.len(),
        stops_disjunction(u),
    ensures
        skip_ws(s + u, q) == if skip_ws(s, q) < s.len() {
            skip_ws(s, q)
        } else {
            (s.len() as int + 1)
        },
    decreases s.len() - q,
{
    lemma_punctuation();
    if q < s.len() {
        assert((s + u)[q] == s[q]);
        if is_whitespace(s[q]) {
            lemma_ext_skip(s, u, q + 1);
        }
    } else {
        assert((s + u)[q] == u[0]);
        assert((s + u)[q + 1] == u[1]);
        assert(skip_ws(s + u, q + 1) == q + 1);
    }
}

proof fn lemma_ext_name(s: Seq<char>, u: Seq<char>, q: int)
    requires
        0 <= q <= s.len(),
        stops_disjunction(u),
    ensures
        name_end(s + u, q) == name_end(s, q),
    decreases s.len() - q,
{
    if q < s.len() {
        assert((s + u)[q] == s[q]);
        if name_char(s[q]) {
            lemma_ext_name(s, u, q + 1);
        }
    } else {
        assert((s + u)[q] == u[0]);
    }
}

proof fn lemma_ext_eat(s: Seq<char>, u: Seq<char>, q: int, tk: Seq<char>)
    requires
        0 <= q <= s.len(),
        stops_disjunction(u),
        1 <= tk.len() <= 2,
        tk.len() == 2 ==> !is_whitespace(tk[1]),
    ensures
        skip_ws(s, q) < s.len() ==> eat(s + u, q, tk) == eat(s, q, tk),
        skip_ws(s, q) == s.len() && tk[0] != '-' ==> eat(s, q, tk) == (false, s.len() as int) && eat(s + u, q, tk) == (
            false,
            (s.len() as int + 1),
        ),
{
    lemma_skip_ws(s, q);
    lemma_ext_skip(s, u, q);
    let r = skip_ws(s, q);
    let k = tk.len() as int;
    let s2 = s + u;
    if r < s.len() {
        if r + k <= s.len() {
            assert(s2.subrange(r, r + k) =~= s.subrange(r, r + k));
        } else {
            assert(k == 2 && r == s.len() - 1);
            assert(s2[s.len() as int] == u[0]);
            assert(s2.subrange(r, r + k)[1] == s2[s.len() as int]);
        }
    } else {
        assert(s2[(s.len() as int + 1)] == u[1]);
        if (s.len() as int + 1) + k <= s2.len() {
            assert(s2.subrange((s.len() as int + 1), (s.len() as int + 1) + k)[0] == s2[(s.len() as int + 1)]);
        }
    }
}

/// A part of `s` that parses as an implication and ends before the end of
/// `s` parses the same when `u` follows.
proof fn lemma_ext_imp(s: Seq<char>, u: Seq<char>, p: int)
    requires
        stops_disjunction(u),
    ensures
        parse_imp_at(s, p) matches Ok((f, e)) ==> e < s.len() ==> parse_imp_at(s + u, p) == Ok::<
            (Formula, int),
            ParseError,
        >((f, e)),
    decreases s.len() - p, 4nat,
{
    lemma_punctuation();
    assert(!is_whitespace('>'));
    if 0 <= p <= s.len() {
        lemma_ext_or(s, u, p);
        lemma_shift_or(Seq::empty(), s, p);
        if let Ok((l, p1)) = parse_or_at(s, p) {
            lemma_skip_ws(s, p1);
            lemma_ext_eat(s, u, p1, seq!['-', '>']);
            let (ok, p2) = eat(s, p1, seq!['-', '>']);
            if ok {
                lemma_ext_imp(s, u, p2);
            }
        }
    }
}

proof fn lemma_ext_or(s: Seq<char>, u: Seq<char>, p: int)
    requires
        stops_disjunction(u),
    ensures
        parse_or_at(s, p) matches Ok((f, e)) ==> parse_or_at(s + u, p) == Ok::<(Formula, int), ParseError>(
            (
                f,
                if e < s.len() {
                    e
                } else {
                    (s.len() as int + 1)
                },
            ),
        ),
    decreases s.len() - p, 3nat,
{
    if 0 <= p <= s.len() {
        lemma_ext_unary(s, u, p);
        lemma_shift_unary(Seq::empty(), s, p);
        if let Ok((l, p1)) = parse_unary_at(s, p) {
            lemma_ext_tail(s, u, p1, l);
        }
    }
}

proof fn lemma_ext_tail(s: Seq<char>, u: Seq<char>, p: int, left: Formula)
    requires
        stops_disjunction(u),
    ensures
        or_tail_at(s, p, left) matches Ok((f, e)) ==> or_tail_at(s + u, p, left) == Ok::<
            (Formula, int),
            ParseError,
        >(
            (
                f,
                if e < s.len() {
                    e
                } else {
                    (s.len() as int + 1)
                },
            ),
        ),
    decreases s.len() - p, 2nat,
{
    lemma_punctuation();
    if 0 <= p <= s.len() {
        lemma_skip_ws(s, p);
        lemma_ext_eat(s, u, p, seq!['|']);
        let (ok, p2) = eat(s, p, seq!['|']);
        if ok {
            lemma_ext_unary(s, u, p2);
            lemma_shift_unary(Seq::empty(), s, p2);
            if let Ok((r, p3)) = parse_unary_at(s, p2) {
                lemma_ext_tail(s, u, p3, Formula::Or(Box::new(left), Box::new(r)));
            }
        }
    }
}

proof fn lemma_ext_unary(s: Seq<char>, u: Seq<char>, p: int)
    requires
        stops_disjunction(u),
    ensures
        parse_unary_at(s, p) matches Ok((f, e)) ==> parse_unary_at(s + u, p) == Ok::<(Formula, int), ParseError>(
            (f, e),
        ),
    decreases s.len() - p, 1nat,
{
    if 0 <= p <= s.len() {
        lemma_skip_ws(s, p);
        lemma_ext_eat(s, u, p, seq!['~']);
        let (ok, p2) = eat(s, p, seq!['~']);
        if ok {
            lemma_ext_unary(s, u, p2);
        } else {
            if skip_ws(s, p) == s.len() {
                lemma_skip_to(s, s.len() as int, s.len() as int);
                lemma_ext_eat(s, u, p2, seq!['(']);
                assert(parse_atom_at(s, p2) is Err);
            }
            lemma_ext_atom(s, u, p2);
        }
    }
}

proof fn lemma_ext_atom(s: Seq<char>, u: Seq<char>, p: int)
    requires
        stops_disjunction(u),
    ensures
        parse_atom_at(s, p) matches Ok((f, e)) ==> parse_atom_at(s + u, p) == Ok::<(Formula, int), ParseError>(
            (f, e),
        ),
    decreases s.len() - p, 0nat,
{
    if 0 <= p <= s.len() {
        lemma_skip_ws(s, p);
        lemma_ext_eat(s, u, p, seq!['(']);
        let (ok, p2) = eat(s, p, seq!['(']);
        if ok {
            lemma_ext_imp(s, u, p2);
            lemma_shift_imp(Seq::empty(), s, p2);
            if let Ok((e, p3)) = parse_imp_at(s, p2) {
                lemma_skip_ws(s, p3);
                lemma_ext_eat(s, u, p3, seq![')']);
                if eat(s, p3, seq![')']).0 {
                    assert(skip_ws(s, p3) < s.len());
                }
            }
        } else if skip_ws(s, p) < s.len() {
            lemma_skip_ws(s, p2);
            lemma_ext_skip(s, u, p2);
            let q = skip_ws(s, p2);
            lemma_ext_name(s, u, q);
            lemma_name_end(s, q);
            let end = name_end(s, q);
            assert((s + u).subrange(q, end) =~= s.subrange(q, end));
        } else {
            lemma_skip_to(s, s.len() as int, s.len() as int);
        }
    }
}

/// A text that the disjunction level reads whole, placed after `pre` and
/// one character of white space, is read whole by the implication level
/// from that character on.
proof fn lemma_consequent_parse(pre: Seq<char>, t: Seq<char>, f: Formula)
    requires
        pre.len() >= 1,
        is_whitespace(pre[pre.len() - 1]),
        parse_or_at(t, 0) == Ok::<(Formula, int), ParseError>((f, t.len() as int)),
    ensures
        parse_imp_at(pre + t, pre.len() - 1) == Ok::<(Formula, int), ParseError>((f, (pre + t).len() as int)),
{
    let s = pre + t;
    let o = pre.len() as int;
    let (l, p1) = parse_unary_at(t, 0)->Ok_0;
    lemma_shift_unary(Seq::empty(), t, 0);
    assert(Seq::<char>::empty() + t =~= t);
    lemma_shift_unary(pre, t, 0);
    lemma_shift_tail(pre, t, p1, l);
    assert(s[o - 1] == pre[o - 1]);
    assert(skip_ws(s, o - 1) == skip_ws(s, o));
    assert(parse_unary_at(s, o - 1) == parse_unary_at(s, o));
    assert(parse_or_at(s, o - 1) == Ok::<(Formula, int), ParseError>((f, s.len() as int)));
    lemma_skip_to(s, s.len() as int, s.len() as int);
    assert(eat(s, s.len() as int, seq!['-', '>']) == (false, s.len() as int));
}

proof fn lemma_normalize_arrow(t1: Seq<char>, t2: Seq<char>)
    ensures
        normalize(t1 + seq![' ', '-', '>', ' '] + t2) == normalize(t1) + (seq![' ', '-', '>', ' '] + normalize(t2)),
{
    let mid = seq![' ', '-', '>', ' '];
    assert(plain(mid)) by {
        assert forall|i: int| 0 <= i < mid.len() implies plain_char(#[trigger] mid[i]) by {}
    }
    lemma_normalize_plain(mid);
    lemma_normalize_concat(t1, mid);
    lemma_normalize_concat(t1 + mid, t2);
    assert(normalize(t1) + mid + normalize(t2) =~= normalize(t1) + (mid + normalize(t2)));
}

/// The implication level reads a disjunction, `->` and an implication.
proof fn lemma_imp_parts(s: Seq<char>, p: int, f1: Formula, q: int, f2: Formula, e: int)
    requires
        0 <= p <= q <= s.len(),
        parse_or_at(s, p) == Ok::<(Formula, int), ParseError>((f1, q)),
        eat(s, q, seq!['-', '>']) == (true, q + 2),
        parse_imp_at(s, q + 2) == Ok::<(Formula, int), ParseError>((f2, e)),
    ensures
        parse_imp_at(s, p) == Ok::<(Formula, int), ParseError>((implies_f(f1, f2), e)),
{
}

proof fn lemma_antecedent_parse(n1: Seq<char>, n2: Seq<char>, f1: Formula)
    requires
        parse_or_at(n1, 0) == Ok::<(Formula, int), ParseError>((f1, n1.len() as int)),
    ensures
        parse_or_at(n1 + (seq![' ', '-', '>', ' '] + n2), 0) == Ok::<(Formula, int), ParseError>(
            (f1, n1.len() as int + 1),
        ),
        eat(n1 + (seq![' ', '-', '>', ' '] + n2), n1.len() as int + 1, seq!['-', '>']) == (true, n1.len() as int + 3),
{
    lemma_punctuation();
    let u = seq![' ', '-', '>', ' '] + n2;
    let s = n1 + u;
    let l1 = n1.len() as int;
    assert(u[0] == ' ' && u[1] == '-');
    lemma_ext_or(n1, u, 0);
    assert(s[l1 + 1] == '-');
    lemma_skip_to(s, l1 + 1, l1 + 1);
    assert(s.subrange(l1 + 1, l1 + 3) =~= seq!['-', '>']);
}

proof fn lemma_consequent_after_arrow(n1: Seq<char>, n2: Seq<char>, f2: Formula)
    requires
        parse_or_at(n2, 0) == Ok::<(Formula, int), ParseError>((f2, n2.len() as int)),
    ensures
        parse_imp_at(n1 + (seq![' ', '-', '>', ' '] + n2), n1.len() as int + 3) == Ok::<(Formula, int), ParseError>(
            (f2, n1.len() as int + 4 + n2.len()),
        ),
{
    lemma_punctuation();
    let mid = seq![' ', '-', '>', ' '];
    let pre = n1 + mid;
    assert(n1 + (mid + n2) =~= pre + n2);
    assert(pre[pre.len() - 1] == ' ');
    lemma_consequent_parse(pre, n2, f2);
}

/// `->` binds more loosely than `|`: where texts `t1` and `t2` are each,
/// in their ASCII spelling, read whole by the disjunction level of the
/// parser, as `f1` and `f2`, the text `t1 -> t2` parses to `f1 -> f2`; so an
/// unparenthesised disjunction stands as a whole on either side of `->`.
pub proof fn law_implication_of_disjunctions(t1: Seq<char>, t2: Seq<char>, f1: Formula, f2: Formula)
    requires
        parse_or_at(normalize(t1), 0) == Ok::<(Formula, int), ParseError>((f1, normalize(t1).len() as int)),
        parse_or_at(normalize(t2), 0) == Ok::<(Formula, int), ParseError>((f2, normalize(t2).len() as int)),
    ensures
        parse_spec(t1 + seq![' ', '-', '>', ' '] + t2) == Ok::<Formula, ParseError>(implies_f(f1, f2)),
{
    let n1 = normalize(t1);
    let n2 = normalize(t2);
    lemma_normalize_arrow(t1, t2);
    lemma_antecedent_parse(n1, n2, f1);
    lemma_consequent_after_arrow(n1, n2, f2);
    let s = n1 + (seq![' ', '-', '>', ' '] + n2);
    let l1 = n1.len() as int;
    lemma_imp_parts(s, 0, f1, l1 + 1, f2, s.len() as int);
    lemma_skip_to(s, s.len() as int, s.len() as int);
}

/// `r` is what the specification `spec` says of success, with `end` the
/// position after the formula.
pub open spec fn scanned_as(r: Result<(), ParseError>, end: int, spec: Parsed) -> bool {
    match (r, spec) {
        (Ok(_), Ok((_, q))) => end == q,
        (Err(a), Err(b)) => a == b,
        _ => false,
    }
}

struct Parser {
    chars: Vec<char>,
    pos: usize,
}

impl Parser {
    fn skip_ws(&mut self)
        requires
            old(self).pos <= old(self).chars@.len(),
        ensures
            final(self).chars@ == old(self).chars@,
            final(self).pos == skip_ws(old(self).chars@, old(self).pos as int),
            old(self).pos <= final(self).pos <= final(self).chars@.len(),
    {
        while self.pos < self.chars.len() && char_is_whitespace(self.chars[self.pos])
            invariant
                self.chars@ == old(self).chars@,
                old(self).pos <= self.pos <= self.chars@.len(),
                skip_ws(self.chars@, self.pos as int) == skip_ws(old(self).chars@, old(self).pos as int),
            decreases self.chars@.len() - self.pos,
        {
            self.pos = self.pos + 1;
        }
    }

    fn eat(&mut self, token: &str) -> (r: bool)
        requires
            old(self).pos <= old(self).chars@.len(),
        ensures
            final(self).chars@ == old(self).chars@,
            (r, final(self).pos as int) == eat(old(self).chars@, old(self).pos as int, token@),
            old(self).pos <= final(self).pos <= final(self).chars@.len(),
            r ==> final(self).pos >= old(self).pos + token@.len(),
    {
        self.skip_ws();
        let n = token.unicode_len();
        if n <= self.chars.len() - self.pos {
            let mut j: usize = 0;
            while j < n
                invariant
                    self.chars@ == old(self).chars@,
                    self.pos == skip_ws(old(self).chars@, old(self).pos as int),
                    old(self).pos <= self.pos,
                    self.pos + n <= self.chars@.len(),
                    self.chars@.len() <= usize::MAX,
                    j <= n,
                    n == token@.len(),
                    forall|k: int| 0 <= k < j ==> self.chars@[self.pos + k] == token@[k],
                decreases n - j,
            {
                if self.chars[self.pos + j] != token.get_char(j) {
                    proof {
                        assert(self.chars@.subrange(self.pos as int, self.pos + n)[j as int] != token@[j as int]);
                    }
                    return false;
                }
                j = j + 1;
            }
            assert(self.chars@.subrange(self.pos as int, self.pos + n) =~= token@);
            self.pos = self.pos + n;
            true
        } else {
            false
        }
    }

    // The scanners check, without building the formula, whether the text from
    // the position on is what the grammar asks for, and report why not.

    fn scan_imp(&mut self) -> (r: Result<(), ParseError>)
        requires
            old(self).pos <= old(self).chars@.len(),
        ensures
            final(self).chars@ == old(self).chars@,
            old(self).pos <= final(self).pos <= final(self).chars@.len(),
            scanned_as(r, final(self).pos as int, parse_imp_at(old(self).chars@, old(self).pos as int)),
        decreases old(self).chars@.len() - old(self).pos, 4nat,
    {
        match self.scan_or() {
            Ok(()) => {},
            Err(x) => return Err(x),
        }
        proof {
            reveal_strlit("->");
            assert("->"@ =~= seq!['-', '>']);
        }
        if self.eat("->") {
            self.scan_imp()
        } else {
            Ok(())
        }
    }

    fn scan_or(&mut self) -> (r: Result<(), ParseError>)
        requires
            old(self).pos <= old(self).chars@.len(),
        ensures
            final(self).chars@ == old(self).chars@,
            old(self).pos <= final(self).pos <= final(self).chars@.len(),
            scanned_as(r, final(self).pos as int, parse_or_at(old(self).chars@, old(self).pos as int)),
        decreases old(self).chars@.len() - old(self).pos, 3nat,
    {
        let ghost start = self.pos as int;
        match self.scan_unary() {
            Ok(()) => {},
            Err(x) => return Err(x),
        }
        let ghost mut left: Formula = parse_unary_at(self.chars@, start)->Ok_0.0;
        proof {
            reveal_strlit("|");
            assert("|"@ =~= seq!['|']);
        }
        loop
            invariant
                self.chars@ == old(self).chars@,
                old(self).pos <= self.pos <= self.chars@.len(),
                parse_or_at(old(self).chars@, old(self).pos as int) == or_tail_at(self.chars@, self.pos as int, left),
                "|"@ == seq!['|'],
            decreases self.chars@.len() - self.pos,
        {
            if !self.eat("|") {
                return Ok(());
            }
            let ghost q = self.pos as int;
            match self.scan_unary() {
                Ok(()) => {},
                Err(x) => return Err(x),
            }
            proof {
                left = Formula::Or(Box::new(left), Box::new(parse_unary_at(self.chars@, q)->Ok_0.0));
            }
        }
    }

    fn scan_unary(&mut self) -> (r: Result<(), ParseError>)
        requires
            old(self).pos <= old(self).chars@.len(),
        ensures
            final(self).chars@ == old(self).chars@,
            old(self).pos <= final(self).pos <= final(self).chars@.len(),
            scanned_as(r, final(self).pos as int, parse_unary_at(old(self).chars@, old(self).pos as int)),
        decreases old(self).chars@.len() - old(self).pos, 1nat,
    {
        proof {
            reveal_strlit("~");
            assert("~"@ =~= seq!['~']);
        }
        if self.eat("~") {
            self.scan_unary()
        } else {
            self.scan_atom()
        }
    }

    fn scan_atom(&mut self) -> (r: Result<(), ParseError>)
        requires
            old(self).pos <= old(self).chars@.len(),
        ensures
            final(self).chars@ == old(self).chars@,
            old(self).pos <= final(self).pos <= final(self).chars@.len(),
            scanned_as(r, final(self).pos as int, parse_atom_at(old(self).chars@, old(self).pos as int)),
        decreases old(self).chars@.len() - old(self).pos, 0nat,
    {
        proof {
            reveal_strlit("(");
            reveal_strlit(")");
            assert("("@ =~= seq!['(']);
            assert(")"@ =~= seq![')']);
        }
        if self.eat("(") {
            match self.scan_imp() {
                Ok(()) => {},
                Err(x) => return Err(x),
            }
            if !self.eat(")") {
                return Err(ParseError::MissingParenthesis);
            }
            return Ok(());
        }
        self.skip_ws();
        let start = self.pos;
        proof {
            lemma_skip_ws(self.chars@, start as int);
        }
        self.skip_name();
        if start == self.pos {
            return Err(ParseError::ExpectedVariable { position: self.pos });
        }
        Ok(())
    }

    /// Move past the run of name characters.
    fn skip_name(&mut self)
        requires
            old(self).pos <= old(self).chars@.len(),
        ensures
            final(self).chars@ == old(self).chars@,
            final(self).pos == name_end(old(self).chars@, old(self).pos as int),
            old(self).pos <= final(self).pos <= final(self).chars@.len(),
    {
        while self.pos < self.chars.len() && (char_is_alphanumeric(self.chars[self.pos]) || self.chars[self.pos] == '_')
            invariant
                self.chars@ == old(self).chars@,
                old(self).pos <= self.pos <= self.chars@.len(),
                name_end(self.chars@, self.pos as int) == name_end(self.chars@, old(self).pos as int),
            decreases self.chars@.len() - self.pos,
        {
            self.pos = self.pos + 1;
        }
    }

    // The parsers build the formula, on text that the grammar accepts from
    // the position on.

    fn parse_imp(&mut self) -> (e: Expr)
        requires
            old(self).pos <= old(self).chars@.len(),
            parse_imp_at(old(self).chars@, old(self).pos as int) is Ok,
        ensures
            final(self).chars@ == old(self).chars@,
            old(self).pos <= final(self).pos <= final(self).chars@.len(),
            parse_imp_at(old(self).chars@, old(self).pos as int) == Ok::<(Formula, int), ParseError>((e@, final(self).pos as int)),
        decreases old(self).chars@.len() - old(self).pos, 4nat,
    {
        let left = self.parse_or();
        proof {
            reveal_strlit("->");
            assert("->"@ =~= seq!['-', '>']);
        }
        if self.eat("->") {
            // right-associative
            let right = self.parse_imp();
            Expr::implies(left, right)
        } else {
            left
        }
    }

    fn parse_or(&mut self) -> (e: Expr)
        requires
            old(self).pos <= old(self).chars@.len(),
            parse_or_at(old(self).chars@, old(self).pos as int) is Ok,
        ensures
            final(self).chars@ == old(self).chars@,
            old(self).pos <= final(self).pos <= final(self).chars@.len(),
            parse_or_at(old(self).chars@, old(self).pos as int) == Ok::<(Formula, int), ParseError>((e@, final(self).pos as int)),
        decreases old(self).chars@.len() - old(self).pos, 3nat,
    {
        let mut left = self.parse_unary();
        proof {
            reveal_strlit("|");
            assert("|"@ =~= seq!['|']);
        }
        loop
            invariant
                self.chars@ == old(self).chars@,
                old(self).pos <= self.pos <= self.chars@.len(),
                parse_or_at(old(self).chars@, old(self).pos as int) == or_tail_at(self.chars@, self.pos as int, left@),
                parse_or_at(old(self).chars@, old(self).pos as int) is Ok,
                "|"@ == seq!['|'],
            decreases self.chars@.len() - self.pos,
        {
            if !self.eat("|") {
                return left;
            }
            let right = self.parse_unary();
            left = Expr::or(left, right);
        }
    }

    fn parse_unary(&mut self) -> (e: Expr)
        requires
            old(self).pos <= old(self).chars@.len(),
            parse_unary_at(old(self).chars@, old(self).pos as int) is Ok,
        ensures
            final(self).chars@ == old(self).chars@,
            old(self).pos <= final(self).pos <= final(self).chars@.len(),
            parse_unary_at(old(self).chars@, old(self).pos as int) == Ok::<(Formula, int), ParseError>((e@, final(self).pos as int)),
        decreases old(self).chars@.len() - old(self).pos, 1nat,
    {
        proof {
            reveal_strlit("~");
            assert("~"@ =~= seq!['~']);
        }
        if self.eat("~") {
            Expr::not(self.parse_unary())
        } else {
            self.parse_atom()
        }
    }

    fn parse_atom(&mut self) -> (e: Expr)
        requires
            old(self).pos <= old(self).chars@.len(),
            parse_atom_at(old(self).chars@, old(self).pos as int) is Ok,
        ensures
            final(self).chars@ == old(self).chars@,
            old(self).pos <= final(self).pos <= final(self).chars@.len(),
            parse_atom_at(old(self).chars@, old(self).pos as int) == Ok::<(Formula, int), ParseError>((e@, final(self).pos as int)),
        decreases old(self).chars@.len() - old(self).pos, 0nat,
    {
        proof {
            reveal_strlit("(");
            reveal_strlit(")");
            assert("("@ =~= seq!['(']);
            assert(")"@ =~= seq![')']);
        }
        if self.eat("(") {
            let e = self.parse_imp();
            let closed = self.eat(")");
            // the grammar asks for the closing parenthesis here
            assert(closed);
            return e;
        }
        self.skip_ws();
        let start = self.pos;
        proof {
            lemma_skip_ws(self.chars@, start as int);
        }
        self.skip_name();
        // the grammar asks for a variable here
        assert(start < self.pos);
        let mut name = String::new();
        let mut k: usize = start;
        while k < self.pos
            invariant
                start <= k <= self.pos <= self.chars@.len(),
                name@ == self.chars@.subrange(start as int, k as int),
            decreases self.pos - k,
        {
            push_char(&mut name, self.chars[k]);
            assert(self.chars@.subrange(start as int, k + 1) =~= self.chars@.subrange(start as int, k as int).push(self.chars@[k as int]));
            k = k + 1;
        }
        Expr::Var(name)
    }
}

/// Append the ASCII spelling of `c` to `out`.
fn push_normalized(out: &mut Vec<char>, c: char)
    ensures
        final(out)@ == old(out)@ + normalize_char(c),
{
    if c == '\u{ac}' {
        out.push('~');
    } else if c == '\u{2228}' {
        out.push('|');
    } else if c == '\u{2283}' || c == '\u{2192}' {
        out.push('-');
        out.push('>');
    } else {
        out.push(c);
    }
    assert(final(out)@ =~= old(out)@ + normalize_char(c));
}

/// The text with the Unicode operators spelled in ASCII.
fn normalized_chars(text: &str) -> (chars: Vec<char>)
    ensures
        chars@ == normalize(text@),
{
    let mut chars: Vec<char> = Vec::new();
    broadcast use vstd::string::group_string_axioms;
    for c in it: text.chars()
        invariant
            it.seq() == text@,
            chars@ == normalize(text@.subrange(0, it.index() as int)),
    {
        let ghost i = it.index();
        push_normalized(&mut chars, c);
        proof {
            let t = text@.subrange(0, i + 1);
            assert(t.drop_last() =~= text@.subrange(0, i as int));
            assert(t.last() == c);
        }
    }
    proof {
        assert(text@.subrange(0, text@.len() as int) =~= text@);
    }
    chars
}

/// Parse a formula from text, or say why the text is not one: the text is
/// checked first, and parsed only where it is a formula.
pub fn try_parse(text: &str) -> (r: Result<Expr, ParseError>)
    ensures
        match r {
            Ok(e) => parse_spec(text@) == Ok::<Formula, ParseError>(e@),
            Err(x) => parse_spec(text@) == Err::<Formula, ParseError>(x),
        },
{
    let chars = normalized_chars(text);
    let mut parser = Parser { chars, pos: 0 };
    match parser.scan_imp() {
        Ok(()) => {},
        Err(x) => return Err(x),
    }
    parser.skip_ws();
    if parser.pos != parser.chars.len() {
        return Err(ParseError::TrailingText);
    }
    parser.pos = 0;
    let e = parser.parse_imp();
    Ok(e)
}

/// Parse a formula from text, which must be a formula.
pub fn parse(text: &str) -> (e: Expr)
    requires
        parse_spec(text@) is Ok,
    ensures
        parse_spec(text@) == Ok::<Formula, ParseError>(e@),
{
    let chars = normalized_chars(text);
    let mut parser = Parser { chars, pos: 0 };
    let e = parser.parse_imp();
    parser.skip_ws();
    // the grammar asks that nothing but white space follows
    assert(parser.pos == parser.chars@.len());
    e
}

} // verus!
