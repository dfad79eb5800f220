//! The parser: deterministic, ordered-choice recursive descent from source
//! text to `Expr` trees. Each executable parser is proved to agree with a
//! specification-level parser over the input's character sequence.

use vstd::prelude::*;
use vstd::string::StrSliceExecFns;
use crate::ast::{Atom, AtomV, Expr, ExprV};

verus! {

/// A parse failure: `rem` is how many characters were still unread at the
/// point where no grammar alternative matched.
#[derive(Debug, PartialEq)]
pub struct ParseErr {
    pub rem: usize,
}

/// Whitespace: space, tab, newline, carriage return.
pub open spec fn is_space(c: char) -> bool {
    c == ' ' || c == '\t' || c == '\n' || c == '\r'
}

/// An alphabetic character: `a` to `z` or `A` to `Z`.
pub open spec fn is_alpha(c: char) -> bool {
    (97 <= c as u32 && c as u32 <= 122) || (65 <= c as u32 && c as u32 <= 90)
}

/// A decimal digit.
pub open spec fn is_digit(c: char) -> bool {
    48 <= c as u32 && c as u32 <= 57
}

pub open spec fn space_p() -> spec_fn(char) -> bool {
    |c: char| is_space(c)
}

pub open spec fn alpha_p() -> spec_fn(char) -> bool {
    |c: char| is_alpha(c)
}

pub open spec fn digit_p() -> spec_fn(char) -> bool {
    |c: char| is_digit(c)
}

/// Any character a string literal may contain: everything but `"`.
pub open spec fn text_p() -> spec_fn(char) -> bool {
    |c: char| c != '"'
}

/// The length of the longest prefix of `s` whose characters all satisfy `p`.
pub open spec fn scan_len(s: Seq<char>, p: spec_fn(char) -> bool) -> nat
    decreases s.len(),
{
    if s.len() > 0 && p(s[0]) {
        1 + scan_len(s.drop_first(), p)
    } else {
        0
    }
}

pub proof fn lemma_scan_len_le(s: Seq<char>, p: spec_fn(char) -> bool)
    ensures
        scan_len(s, p) <= s.len(),
    decreases s.len(),
{
    if s.len() > 0 && p(s[0]) {
        lemma_scan_len_le(s.drop_first(), p);
    }
}

pub open spec fn ws_len(s: Seq<char>) -> nat {
    scan_len(s, space_p())
}

pub open spec fn alpha_len(s: Seq<char>) -> nat {
    scan_len(s, alpha_p())
}

pub open spec fn digit_len(s: Seq<char>) -> nat {
    scan_len(s, digit_p())
}

pub open spec fn text_len(s: Seq<char>) -> nat {
    scan_len(s, text_p())
}

/// `s` with its leading whitespace removed.
pub open spec fn drop_ws(s: Seq<char>) -> Seq<char> {
    s.skip(ws_len(s) as int)
}

pub proof fn lemma_drop_ws_le(s: Seq<char>)
    ensures
        drop_ws(s).len() <= s.len(),
{
    lemma_scan_len_le(s, space_p());
}

/// `s` begins with the characters of `t`.
pub open spec fn starts_with(s: Seq<char>, t: Seq<char>) -> bool {
    s.len() >= t.len() && s.subrange(0, t.len() as int) == t
}

/// A scan over a concatenation whose first part satisfies the predicate
/// throughout runs through it and continues in the second part.
pub proof fn lemma_scan_len_concat_all(a: Seq<char>, u: Seq<char>, p: spec_fn(char) -> bool)
    requires
        forall|k: int| 0 <= k < a.len() ==> p(a[k]),
    ensures
        scan_len(a + u, p) == a.len() + scan_len(u, p),
    decreases a.len(),
{
    if a.len() == 0 {
        assert(a + u =~= u);
    } else {
        lemma_scan_len_concat_all(a.drop_first(), u, p);
        assert((a + u).drop_first() =~= a.drop_first() + u);
    }
}

/// A scan over a concatenation whose first part satisfies the predicate
/// throughout and whose second part opens with a character that does not
/// stops exactly at the boundary.
pub proof fn lemma_scan_len_concat(a: Seq<char>, u: Seq<char>, p: spec_fn(char) -> bool)
    requires
        forall|k: int| 0 <= k < a.len() ==> p(a[k]),
        u.len() == 0 || !p(u[0]),
    ensures
        scan_len(a + u, p) == a.len(),
{
    lemma_scan_len_concat_all(a, u, p);
}

/// Leading whitespace before a concatenation's second part is dropped
/// together with that part's own leading whitespace.
pub proof fn lemma_drop_ws_concat(w: Seq<char>, u: Seq<char>)
    requires
        forall|k: int| 0 <= k < w.len() ==> is_space(w[k]),
    ensures
        drop_ws(w + u) == drop_ws(u),
{
    lemma_scan_len_concat_all(w, u, space_p());
    lemma_scan_len_le(u, space_p());
    assert((w + u).skip(w.len() + ws_len(u) as int) =~= u.skip(ws_len(u) as int));
}

// ---------------------------------------------------------------------------
// Executable character classifiers and scanners.
// ---------------------------------------------------------------------------
fn is_space_c(c: char) -> (b: bool)
    ensures
        b == is_space(c),
{
    c == ' ' || c == '\t' || c == '\n' || c == '\r'
}

fn is_alpha_c(c: char) -> (b: bool)
    ensures
        b == is_alpha(c),
{
    let u = c as u32;
    (97 <= u && u <= 122) || (65 <= u && u <= 90)
}

fn is_digit_c(c: char) -> (b: bool)
    ensures
        b == is_digit(c),
{
    let u = c as u32;
    48 <= u && u <= 57
}

/// The first index at or after `from` holding a non-whitespace character.
fn ws_end(input: &str, from: usize) -> (r: usize)
    requires
        from <= input@.len(),
    ensures
        from <= r <= input@.len(),
        r - from == ws_len(input@.skip(from as int)),
    decreases input@.len() - from,
{
    let t = Ghost(input@.skip(from as int));
    if from < input.unicode_len() && is_space_c(input.get_char(from)) {
        let r = ws_end(input, from + 1);
        proof {
            assert(t@.drop_first() =~= input@.skip(from as int + 1));
        }
        r
    } else {
        proof {
            assert(scan_len(t@, space_p()) == 0);
        }
        from
    }
}

/// The first index at or after `from` holding a non-alphabetic character.
fn alpha_end(input: &str, from: usize) -> (r: usize)
    requires
        from <= input@.len(),
    ensures
        from <= r <= input@.len(),
        r - from == alpha_len(input@.skip(from as int)),
    decreases input@.len() - from,
{
    let t = Ghost(input@.skip(from as int));
    if from < input.unicode_len() && is_alpha_c(input.get_char(from)) {
        let r = alpha_end(input, from + 1);
        proof {
            assert(t@.drop_first() =~= input@.skip(from as int + 1));
        }
        r
    } else {
        proof {
            assert(scan_len(t@, alpha_p()) == 0);
        }
        from
    }
}

/// The first index at or after `from` holding a non-digit character.
fn digit_end(input: &str, from: usize) -> (r: usize)
    requires
        from <= input@.len(),
    ensures
        from <= r <= input@.len(),
        r - from == digit_len(input@.skip(from as int)),
    decreases input@.len() - from,
{
    let t = Ghost(input@.skip(from as int));
    if from < input.unicode_len() && is_digit_c(input.get_char(from)) {
        let r = digit_end(input, from + 1);
        proof {
            assert(t@.drop_first() =~= input@.skip(from as int + 1));
        }
        r
    } else {
        proof {
            assert(scan_len(t@, digit_p()) == 0);
        }
        from
    }
}

/// The first index at or after `from` holding a `"`.
fn text_end(input: &str, from: usize) -> (r: usize)
    requires
        from <= input@.len(),
    ensures
        from <= r <= input@.len(),
        r - from == text_len(input@.skip(from as int)),
    decreases input@.len() - from,
{
    let t = Ghost(input@.skip(from as int));
    if from < input.unicode_len() && input.get_char(from) != '"' {
        let r = text_end(input, from + 1);
        proof {
            assert(t@.drop_first() =~= input@.skip(from as int + 1));
        }
        r
    } else {
        proof {
            assert(scan_len(t@, text_p()) == 0);
        }
        from
    }
}

/// Removes leading whitespace, as `drop_ws` states it. In the grammar,
/// whitespace may surround every expression and sub-term, so the other
/// parsers apply this on both sides of a term.
pub fn ws(input: &str) -> (r: &str)
    ensures
        r@ == drop_ws(input@),
{
    let i = ws_end(input, 0);
    let r = input.substring_char(i, input.unicode_len());
    proof {
        assert(input@.skip(0) =~= input@);
        assert(input@.subrange(i as int, input@.len() as int) =~= input@.skip(i as int));
    }
    r
}

// ---------------------------------------------------------------------------
// Atoms.
// ---------------------------------------------------------------------------
/// A string literal: `"` then any characters up to (not including) the next
/// `"`, then `"`. No escape processing: a `"` cannot appear inside.
pub open spec fn spec_parse_string(s: Seq<char>) -> Option<(Seq<char>, AtomV)> {
    if s.len() >= 1 && s[0] == '"' {
        let t = s.drop_first();
        let m = text_len(t);
        if m < t.len() {
            Some((t.skip(m as int + 1), AtomV::String(t.take(m as int))))
        } else {
            None
        }
    } else {
        None
    }
}

/// A name: one or more alphabetic characters, maximal munch.
pub open spec fn spec_parse_name(s: Seq<char>) -> Option<(Seq<char>, AtomV)> {
    let n = alpha_len(s);
    if n == 0 {
        None
    } else {
        Some((s.skip(n as int), AtomV::Name(s.take(n as int))))
    }
}

/// An optional leading `+` or `-`.
pub open spec fn sign_len(s: Seq<char>) -> nat {
    if s.len() > 0 && (s[0] == '+' || s[0] == '-') {
        1
    } else {
        0
    }
}

/// The mantissa of a float literal: digits with an optional fraction, or a
/// leading point followed by digits. `None` when no mantissa is present.
pub open spec fn mant_len(s: Seq<char>) -> Option<nat> {
    let d = digit_len(s);
    if d > 0 {
        let u = s.skip(d as int);
        if u.len() > 0 && u[0] == '.' {
            Some((d + 1 + digit_len(u.drop_first())) as nat)
        } else {
            Some(d)
        }
    } else {
        if s.len() > 0 && s[0] == '.' && digit_len(s.drop_first()) > 0 {
            Some((1 + digit_len(s.drop_first())) as nat)
        } else {
            None
        }
    }
}

/// An optional exponent: `e` or `E`, an optional sign, then digits. When the
/// digits are missing the exponent is not taken at all.
pub open spec fn exp_len(s: Seq<char>) -> nat {
    if s.len() > 0 && (s[0] == 'e' || s[0] == 'E') {
        let t = s.drop_first();
        let g = sign_len(t);
        let d = digit_len(t.skip(g as int));
        if d > 0 {
            1 + g + d
        } else {
            0
        }
    } else {
        0
    }
}

/// A float literal in standard decimal syntax: an optional sign, a mantissa,
/// and an optional exponent. The atom keeps the matched source text.
pub open spec fn spec_parse_float(s: Seq<char>) -> Option<(Seq<char>, AtomV)> {
    let g = sign_len(s);
    match mant_len(s.skip(g as int)) {
        None => None,
        Some(m) => {
            let e = exp_len(s.skip(g + m as int));
            let total = g + m + e;
            Some((s.skip(total as int), AtomV::Float(s.take(total as int))))
        },
    }
}

/// An atom, by ordered choice: float first, then string, then name, so a
/// numeric token is never misread as a name.
pub open spec fn spec_parse_atom(s: Seq<char>) -> Option<(Seq<char>, AtomV)> {
    match spec_parse_float(s) {
        Some(r) => Some(r),
        None => match spec_parse_string(s) {
            Some(r) => Some(r),
            None => spec_parse_name(s),
        },
    }
}

/// An atom wrapped as a constant expression.
pub open spec fn spec_parse_constant(s: Seq<char>) -> Option<(Seq<char>, ExprV)> {
    match spec_parse_atom(s) {
        Some((rest, a)) => Some((rest, ExprV::Constant(a))),
        None => None,
    }
}

/// Parses a string literal atom.
pub fn parse_string(input: &str) -> (r: Result<(&str, Atom), ParseErr>)
    ensures
        match r {
            Ok(p) => spec_parse_string(input@) == Some((p.0@, p.1.model())),
            Err(_) => spec_parse_string(input@) is None,
        },
{
    let n = input.unicode_len();
    if n >= 1 && input.get_char(0) == '"' {
        let ghost t = input@.drop_first();
        let j = text_end(input, 1);
        proof {
            assert(t =~= input@.skip(1));
        }
        if j < n {
            let content = input.substring_char(1, j).to_owned();
            let rest = input.substring_char(j + 1, n);
            proof {
                assert(input@.subrange(1, j as int) =~= t.take(j - 1));
                assert(input@.subrange(j + 1, n as int) =~= t.skip(j - 1 + 1));
            }
            Ok((rest, Atom::String(content)))
        } else {
            Err(ParseErr { rem: n })
        }
    } else {
        Err(ParseErr { rem: n })
    }
}

/// Parses a name atom.
pub fn parse_name(input: &str) -> (r: Result<(&str, Atom), ParseErr>)
    ensures
        match r {
            Ok(p) => spec_parse_name(input@) == Some((p.0@, p.1.model())),
            Err(_) => spec_parse_name(input@) is None,
        },
{
    let n = input.unicode_len();
    let j = alpha_end(input, 0);
    proof {
        assert(input@.skip(0) =~= input@);
    }
    if j == 0 {
        Err(ParseErr { rem: n })
    } else {
        let name = input.substring_char(0, j).to_owned();
        let rest = input.substring_char(j, n);
        proof {
            assert(input@.subrange(0, j as int) =~= input@.take(j as int));
            assert(input@.subrange(j as int, n as int) =~= input@.skip(j as int));
        }
        Ok((rest, Atom::Name(name)))
    }
}

/// Parses a float literal atom, keeping the matched text.
#[verifier::rlimit(60)]
pub fn parse_float(input: &str) -> (r: Result<(&str, Atom), ParseErr>)
    ensures
        match r {
            Ok(p) => spec_parse_float(input@) == Some((p.0@, p.1.model())),
            Err(_) => spec_parse_float(input@) is None,
        },
{
    let n = input.unicode_len();
    let g: usize = if n > 0 && (input.get_char(0) == '+' || input.get_char(0) == '-') {
        1
    } else {
        0
    };
    proof {
        assert(g == sign_len(input@));
    }
    let ghost after_sign = input@.skip(g as int);
    // The mantissa, as an end index in `input`.
    let d1 = digit_end(input, g);
    let mant_end: usize = if d1 > g {
        if d1 < n && input.get_char(d1) == '.' {
            let d2 = digit_end(input, d1 + 1);
            proof {
                assert(after_sign.skip(d1 - g) =~= input@.skip(d1 as int));
                assert(after_sign.skip(d1 - g).drop_first() =~= input@.skip(d1 as int + 1));
            }
            d2
        } else {
            proof {
                if d1 < n {
                    assert(after_sign.skip(d1 - g) =~= input@.skip(d1 as int));
                }
            }
            d1
        }
    } else {
        if g < n && input.get_char(g) == '.' {
            let d2 = digit_end(input, g + 1);
            proof {
                assert(after_sign.drop_first() =~= input@.skip(g as int + 1));
            }
            if d2 > g + 1 {
                d2
            } else {
                proof {
                    assert(mant_len(after_sign) is None);
                }
                return Err(ParseErr { rem: n });
            }
        } else {
            proof {
                assert(mant_len(after_sign) is None);
            }
            return Err(ParseErr { rem: n });
        }
    };
    proof {
        assert(mant_len(after_sign) == Some((mant_end - g) as nat));
    }
    // The optional exponent, as an end index in `input`.
    let ghost after_mant = input@.skip(mant_end as int);
    let total: usize = if mant_end < n && (input.get_char(mant_end) == 'e' || input.get_char(
        mant_end,
    ) == 'E') {
        let eg: usize = if mant_end + 1 < n && (input.get_char(mant_end + 1) == '+'
            || input.get_char(mant_end + 1) == '-') {
            1
        } else {
            0
        };
        let d3 = digit_end(input, mant_end + 1 + eg);
        proof {
            assert(after_mant.drop_first() =~= input@.skip(mant_end as int + 1));
            assert(eg == sign_len(after_mant.drop_first()));
            assert(after_mant.drop_first().skip(eg as int) =~= input@.skip(
                mant_end as int + 1 + eg,
            ));
        }
        if d3 > mant_end + 1 + eg {
            d3
        } else {
            proof {
                assert(exp_len(after_mant) == 0);
            }
            mant_end
        }
    } else {
        proof {
            assert(exp_len(after_mant) == 0);
        }
        mant_end
    };
    proof {
        assert(total - g - (mant_end - g) == exp_len(after_mant));
        assert(after_mant == input@.skip(g + (mant_end - g) as int));
    }
    let text = input.substring_char(0, total).to_owned();
    let rest = input.substring_char(total, n);
    proof {
        assert(input@.subrange(0, total as int) =~= input@.take(total as int));
        assert(input@.subrange(total as int, n as int) =~= input@.skip(total as int));
    }
    Ok((rest, Atom::Float(text)))
}

/// Parses an atom: float, else string, else name.
pub fn parse_atom(input: &str) -> (r: Result<(&str, Atom), ParseErr>)
    ensures
        match r {
            Ok(p) => spec_parse_atom(input@) == Some((p.0@, p.1.model())),
            Err(_) => spec_parse_atom(input@) is None,
        },
{
    match parse_float(input) {
        Ok(p) => Ok(p),
        Err(_) => match parse_string(input) {
            Ok(p) => Ok(p),
            Err(_) => parse_name(input),
        },
    }
}

/// Parses an atom as a constant expression.
pub fn parse_constant(input: &str) -> (r: Result<(&str, Expr), ParseErr>)
    ensures
        match r {
            Ok(p) => spec_parse_constant(input@) == Some((p.0@, p.1.model())),
            Err(_) => spec_parse_constant(input@) is None,
        },
{
    match parse_atom(input) {
        Ok((rest, a)) => Ok((rest, Expr::Constant(a))),
        Err(e) => Err(e),
    }
}

// ---------------------------------------------------------------------------
// Expressions. The grammar is ordered alternation: the first alternative
// that matches wins, and there is no backtracking across consumed input.
// ---------------------------------------------------------------------------
/// A binding: `vo`, a name, `=`, and the right-hand expression, each part
/// surrounded by optional whitespace.
pub open spec fn spec_parse_let(s: Seq<char>) -> Option<(Seq<char>, ExprV)>
    decreases s.len(), 5nat,
{
    if starts_with(s, "vo"@) {
        let a = drop_ws(s.skip(2));
        let n = alpha_len(a);
        if n == 0 {
            None
        } else {
            let b = drop_ws(a.skip(n as int));
            if starts_with(b, "="@) {
                proof {
                    reveal_strlit("vo");
                    reveal_strlit("=");
                    lemma_drop_ws_le(s.skip(2));
                    lemma_scan_len_le(a, alpha_p());
                    lemma_drop_ws_le(a.skip(n as int));
                }
                match spec_parse_expr_padded(b.skip(1)) {
                    Some((rest, e)) => Some((rest, ExprV::Let(a.take(n as int), Box::new(e)))),
                    None => None,
                }
            } else {
                None
            }
        }
    } else {
        None
    }
}

/// A call: a name, `(`, a possibly empty comma-separated argument list, `)`.
pub open spec fn spec_parse_call(s: Seq<char>) -> Option<(Seq<char>, ExprV)>
    decreases s.len(), 6nat,
{
    let n = alpha_len(s);
    if n == 0 {
        None
    } else {
        let t = s.skip(n as int);
        if t.len() > 0 && t[0] == '(' {
            proof {
                lemma_scan_len_le(s, alpha_p());
            }
            let (r1, args) = spec_parse_args(t.drop_first());
            if r1.len() > 0 && r1[0] == ')' {
                Some((r1.drop_first(), ExprV::Call(s.take(n as int), args)))
            } else {
                None
            }
        } else {
            None
        }
    }
}

/// A comma-separated, possibly empty list of argument expressions. Never
/// fails: when no element matches, nothing is consumed. A step that would
/// not consume input stops the list (the element grammar always consumes,
/// so that guard is never reached on real input).
pub open spec fn spec_parse_args(s: Seq<char>) -> (Seq<char>, Seq<ExprV>)
    decreases s.len(), 11nat,
{
    match spec_parse_expr_padded(s) {
        None => (s, Seq::empty()),
        Some((r1, e)) => if r1.len() < s.len() {
            let (r2, es) = spec_parse_args_rest(r1);
            (r2, seq![e] + es)
        } else {
            (r1, seq![e])
        },
    }
}

/// The continuation of an argument list: `,` then an element, repeated. A
/// comma not followed by an element is left unconsumed.
pub open spec fn spec_parse_args_rest(s: Seq<char>) -> (Seq<char>, Seq<ExprV>)
    decreases s.len(), 12nat,
{
    if s.len() > 0 && s[0] == ',' {
        match spec_parse_expr_padded(s.drop_first()) {
            None => (s, Seq::empty()),
            Some((r1, e)) => if r1.len() < s.len() {
                let (r2, es) = spec_parse_args_rest(r1);
                (r2, seq![e] + es)
            } else {
                (r1, seq![e])
            },
        }
    } else {
        (s, Seq::empty())
    }
}

/// A comma-separated, possibly empty list of parameter names, each name
/// surrounded by optional whitespace. Never fails.
pub open spec fn spec_parse_params(s: Seq<char>) -> (Seq<char>, Seq<Seq<char>>)
    decreases s.len(), 1nat,
{
    let d = drop_ws(s);
    let n = alpha_len(d);
    if n == 0 {
        (s, Seq::empty())
    } else {
        let r1 = drop_ws(d.skip(n as int));
        if r1.len() < s.len() {
            let (r2, ns) = spec_parse_params_rest(r1);
            (r2, seq![d.take(n as int)] + ns)
        } else {
            (r1, seq![d.take(n as int)])
        }
    }
}

/// The continuation of a parameter list: `,` then a name, repeated.
pub open spec fn spec_parse_params_rest(s: Seq<char>) -> (Seq<char>, Seq<Seq<char>>)
    decreases s.len(), 2nat,
{
    if s.len() > 0 && s[0] == ',' {
        let d = drop_ws(s.drop_first());
        let n = alpha_len(d);
        if n == 0 {
            (s, Seq::empty())
        } else {
            let r1 = drop_ws(d.skip(n as int));
            if r1.len() < s.len() {
                let (r2, ns) = spec_parse_params_rest(r1);
                (r2, seq![d.take(n as int)] + ns)
            } else {
                (r1, seq![d.take(n as int)])
            }
        }
    } else {
        (s, Seq::empty())
    }
}

/// What a parameter list leaves unread is never longer than its input.
pub proof fn lemma_params_rest_le(s: Seq<char>)
    ensures
        spec_parse_params_rest(s).0.len() <= s.len(),
    decreases s.len(),
{
    if s.len() > 0 && s[0] == ',' {
        let d = drop_ws(s.drop_first());
        let n = alpha_len(d);
        if n != 0 {
            lemma_drop_ws_le(s.drop_first());
            lemma_scan_len_le(d, alpha_p());
            lemma_drop_ws_le(d.skip(n as int));
            let r1 = drop_ws(d.skip(n as int));
            if r1.len() < s.len() {
                lemma_params_rest_le(r1);
            }
        }
    }
}

/// What a parameter list leaves unread is never longer than its input.
pub proof fn lemma_params_le(s: Seq<char>)
    ensures
        spec_parse_params(s).0.len() <= s.len(),
{
    let d = drop_ws(s);
    let n = alpha_len(d);
    if n != 0 {
        lemma_drop_ws_le(s);
        lemma_scan_len_le(d, alpha_p());
        lemma_drop_ws_le(d.skip(n as int));
        let r1 = drop_ws(d.skip(n as int));
        if r1.len() < s.len() {
            lemma_params_rest_le(r1);
        }
    }
}

/// A closure: `|`, a parameter name list, `|`, then a body expression,
/// stored as a one-element body sequence.
pub open spec fn spec_parse_closure(s: Seq<char>) -> Option<(Seq<char>, ExprV)>
    decreases s.len(), 7nat,
{
    let t0 = drop_ws(s);
    if t0.len() > 0 && t0[0] == '|' {
        let (r1, ps) = spec_parse_params(t0.drop_first());
        if r1.len() > 0 && r1[0] == '|' {
            proof {
                lemma_drop_ws_le(s);
                lemma_params_le(t0.drop_first());
            }
            match spec_parse_expr_padded(r1.drop_first()) {
                Some((rest, e)) => Some((rest, ExprV::Closure(ps, seq![e]))),
                None => None,
            }
        } else {
            None
        }
    } else {
        None
    }
}

/// An expression, by ordered choice: a binding, else a call, else a
/// closure, else a constant. `let` is tried before `call`, so `vo` followed
/// by a binding is never read as a call named `vo`.
pub open spec fn spec_parse_expr(s: Seq<char>) -> Option<(Seq<char>, ExprV)>
    decreases s.len(), 8nat,
{
    match spec_parse_let(s) {
        Some(r) => Some(r),
        None => match spec_parse_call(s) {
            Some(r) => Some(r),
            None => match spec_parse_closure(s) {
                Some(r) => Some(r),
                None => spec_parse_constant(s),
            },
        },
    }
}

/// An expression surrounded by optional whitespace.
pub open spec fn spec_parse_expr_padded(s: Seq<char>) -> Option<(Seq<char>, ExprV)>
    decreases s.len(), 9nat,
{
    proof {
        lemma_drop_ws_le(s);
    }
    match spec_parse_expr(drop_ws(s)) {
        Some((r, e)) => Some((drop_ws(r), e)),
        None => None,
    }
}

/// A program: zero or more whitespace-separated expressions, with whatever
/// cannot be parsed left unread for the caller to judge.
pub open spec fn spec_parse_program(s: Seq<char>) -> (Seq<char>, Seq<ExprV>)
    decreases s.len(), 13nat,
{
    match spec_parse_expr_padded(s) {
        None => (s, Seq::empty()),
        Some((r, e)) => if r.len() < s.len() {
            let (r2, es) = spec_parse_program(r);
            (r2, seq![e] + es)
        } else {
            (r, seq![e])
        },
    }
}

/// Parses a binding.
pub fn parse_let(input: &str) -> (r: Result<(&str, Expr), ParseErr>)
    ensures
        match r {
            Ok(p) => spec_parse_let(input@) == Some((p.0@, p.1.model())),
            Err(_) => spec_parse_let(input@) is None,
        },
    decreases input@.len(), 5nat,
{
    let n_in = input.unicode_len();
    proof {
        reveal_strlit("vo");
        reveal_strlit("=");
    }
    if n_in < 2 {
        return Err(ParseErr { rem: n_in });
    }
    if !(input.get_char(0) == 'v' && input.get_char(1) == 'o') {
        proof {
            if starts_with(input@, "vo"@) {
                assert(input@.subrange(0, 2)[0] == input@[0]);
                assert(input@.subrange(0, 2)[1] == input@[1]);
            }
        }
        return Err(ParseErr { rem: n_in });
    }
    proof {
        assert(input@.subrange(0, 2) =~= "vo"@);
    }
    let s2 = input.substring_char(2, n_in);
    proof {
        assert(s2@ =~= input@.skip(2));
    }
    let a = ws(s2);
    let na = a.unicode_len();
    let j = alpha_end(a, 0);
    proof {
        assert(a@.skip(0) =~= a@);
    }
    if j == 0 {
        return Err(ParseErr { rem: na });
    }
    let name = a.substring_char(0, j).to_owned();
    let after_name = a.substring_char(j, na);
    proof {
        assert(a@.subrange(0, j as int) =~= a@.take(j as int));
        assert(a@.subrange(j as int, na as int) =~= a@.skip(j as int));
    }
    let b = ws(after_name);
    let nb = b.unicode_len();
    if nb < 1 || b.get_char(0) != '=' {
        proof {
            if starts_with(b@, "="@) {
                assert(b@.subrange(0, 1)[0] == b@[0]);
            }
        }
        return Err(ParseErr { rem: nb });
    }
    proof {
        assert(b@.subrange(0, 1) =~= "="@);
    }
    let tail = b.substring_char(1, nb);
    proof {
        assert(tail@ =~= b@.skip(1));
        lemma_drop_ws_le(input@.skip(2));
        lemma_scan_len_le(a@, alpha_p());
        lemma_drop_ws_le(a@.skip(j as int));
    }
    match parse_expr_padded(tail) {
        Ok((rest, e)) => Ok((rest, Expr::Let(name, Box::new(e)))),
        Err(err) => Err(err),
    }
}

/// Parses a call.
pub fn parse_call(input: &str) -> (r: Result<(&str, Expr), ParseErr>)
    ensures
        match r {
            Ok(p) => spec_parse_call(input@) == Some((p.0@, p.1.model())),
            Err(_) => spec_parse_call(input@) is None,
        },
    decreases input@.len(), 6nat,
{
    let n_in = input.unicode_len();
    let j = alpha_end(input, 0);
    proof {
        assert(input@.skip(0) =~= input@);
    }
    if j == 0 {
        return Err(ParseErr { rem: n_in });
    }
    if j >= n_in || input.get_char(j) != '(' {
        return Err(ParseErr { rem: n_in - j });
    }
    let name = input.substring_char(0, j).to_owned();
    let t2 = input.substring_char(j + 1, n_in);
    proof {
        assert(input@.subrange(0, j as int) =~= input@.take(j as int));
        assert(t2@ =~= input@.skip(j as int).drop_first());
        lemma_scan_len_le(input@, alpha_p());
    }
    let (r1, args) = parse_args(t2);
    let nr1 = r1.unicode_len();
    if nr1 >= 1 && r1.get_char(0) == ')' {
        let rest = r1.substring_char(1, nr1);
        proof {
            assert(rest@ =~= r1@.drop_first());
        }
        Ok((rest, Expr::Call(name, args)))
    } else {
        Err(ParseErr { rem: nr1 })
    }
}

/// Parses a possibly empty argument list. Never fails.
fn parse_args(input: &str) -> (r: (&str, Vec<Expr>))
    ensures
        ({
            let (rest, es) = spec_parse_args(input@);
            r.0@ == rest && crate::ast::exprs_model(r.1@) == es
        }),
    decreases input@.len(), 11nat,
{
    match parse_expr_padded(input) {
        Err(_) => {
            let out: Vec<Expr> = Vec::new();
            proof {
                assert(crate::ast::exprs_model(out@) =~= Seq::<ExprV>::empty());
            }
            (input, out)
        },
        Ok((r1, e)) => {
            if r1.unicode_len() < input.unicode_len() {
                let (r2, mut es) = parse_args_rest(r1);
                let ghost es0 = es@;
                let mut out: Vec<Expr> = Vec::new();
                out.push(e);
                out.append(&mut es);
                proof {
                    assert(out@[0] == e);
                    assert(out@.drop_first() =~= es0);
                    assert(crate::ast::exprs_model(out@) == seq![e.model()]
                        + crate::ast::exprs_model(es0));
                    assert(seq![e.model()] + crate::ast::exprs_model(es0) =~= seq![e.model()]
                        + crate::ast::exprs_model(es0));
                }
                (r2, out)
            } else {
                let mut out: Vec<Expr> = Vec::new();
                out.push(e);
                proof {
                    crate::ast::lemma_exprs_model(out@);
                    assert(crate::ast::exprs_model(out@) =~= seq![e.model()]);
                }
                (r1, out)
            }
        },
    }
}

/// Parses the continuation of an argument list. Never fails.
fn parse_args_rest(input: &str) -> (r: (&str, Vec<Expr>))
    ensures
        ({
            let (rest, es) = spec_parse_args_rest(input@);
            r.0@ == rest && crate::ast::exprs_model(r.1@) == es
        }),
    decreases input@.len(), 12nat,
{
    let n_in = input.unicode_len();
    if n_in == 0 || input.get_char(0) != ',' {
        let out: Vec<Expr> = Vec::new();
        proof {
            assert(crate::ast::exprs_model(out@) =~= Seq::<ExprV>::empty());
        }
        return (input, out);
    }
    let t = input.substring_char(1, n_in);
    proof {
        assert(t@ =~= input@.drop_first());
    }
    match parse_expr_padded(t) {
        Err(_) => {
            let out: Vec<Expr> = Vec::new();
            proof {
                assert(crate::ast::exprs_model(out@) =~= Seq::<ExprV>::empty());
            }
            (input, out)
        },
        Ok((r1, e)) => {
            if r1.unicode_len() < n_in {
                let (r2, mut es) = parse_args_rest(r1);
                let ghost es0 = es@;
                let mut out: Vec<Expr> = Vec::new();
                out.push(e);
                out.append(&mut es);
                proof {
                    assert(out@[0] == e);
                    assert(out@.drop_first() =~= es0);
                }
                (r2, out)
            } else {
                let mut out: Vec<Expr> = Vec::new();
                out.push(e);
                proof {
                    crate::ast::lemma_exprs_model(out@);
                    assert(crate::ast::exprs_model(out@) =~= seq![e.model()]);
                }
                (r1, out)
            }
        },
    }
}

/// Parses a possibly empty parameter-name list. Never fails.
fn parse_params(input: &str) -> (r: (&str, Vec<String>))
    ensures
        ({
            let (rest, ns) = spec_parse_params(input@);
            r.0@ == rest && crate::ast::names_model(r.1@) == ns
        }),
    decreases input@.len(), 1nat,
{
    let d = ws(input);
    let nd = d.unicode_len();
    let j = alpha_end(d, 0);
    proof {
        assert(d@.skip(0) =~= d@);
    }
    if j == 0 {
        let out: Vec<String> = Vec::new();
        proof {
            assert(crate::ast::names_model(out@) =~= Seq::<Seq<char>>::empty());
        }
        return (input, out);
    }
    let name = d.substring_char(0, j).to_owned();
    let after = d.substring_char(j, nd);
    proof {
        assert(d@.subrange(0, j as int) =~= d@.take(j as int));
        assert(d@.subrange(j as int, nd as int) =~= d@.skip(j as int));
    }
    let r1 = ws(after);
    if r1.unicode_len() < input.unicode_len() {
        let (r2, mut ns) = parse_params_rest(r1);
        let ghost ns0 = ns@;
        let mut out: Vec<String> = Vec::new();
        out.push(name);
        out.append(&mut ns);
        proof {
            assert(out@.drop_first() =~= ns0);
            assert(crate::ast::names_model(out@) =~= seq![d@.take(j as int)]
                + crate::ast::names_model(ns0));
        }
        (r2, out)
    } else {
        let mut out: Vec<String> = Vec::new();
        out.push(name);
        proof {
            assert(crate::ast::names_model(out@) =~= seq![d@.take(j as int)]);
        }
        (r1, out)
    }
}

/// Parses the continuation of a parameter-name list. Never fails.
fn parse_params_rest(input: &str) -> (r: (&str, Vec<String>))
    ensures
        ({
            let (rest, ns) = spec_parse_params_rest(input@);
            r.0@ == rest && crate::ast::names_model(r.1@) == ns
        }),
    decreases input@.len(), 2nat,
{
    let n_in = input.unicode_len();
    if n_in == 0 || input.get_char(0) != ',' {
        let out: Vec<String> = Vec::new();
        proof {
            assert(crate::ast::names_model(out@) =~= Seq::<Seq<char>>::empty());
        }
        return (input, out);
    }
    let t = input.substring_char(1, n_in);
    proof {
        assert(t@ =~= input@.drop_first());
    }
    let d = ws(t);
    let nd = d.unicode_len();
    let j = alpha_end(d, 0);
    proof {
        assert(d@.skip(0) =~= d@);
    }
    if j == 0 {
        let out: Vec<String> = Vec::new();
        proof {
            assert(crate::ast::names_model(out@) =~= Seq::<Seq<char>>::empty());
        }
        return (input, out);
    }
    let name = d.substring_char(0, j).to_owned();
    let after = d.substring_char(j, nd);
    proof {
        assert(d@.subrange(0, j as int) =~= d@.take(j as int));
        assert(d@.subrange(j as int, nd as int) =~= d@.skip(j as int));
    }
    let r1 = ws(after);
    if r1.unicode_len() < n_in {
        let (r2, mut ns) = parse_params_rest(r1);
        let ghost ns0 = ns@;
        let mut out: Vec<String> = Vec::new();
        out.push(name);
        out.append(&mut ns);
        proof {
            assert(out@.drop_first() =~= ns0);
            assert(crate::ast::names_model(out@) =~= seq![d@.take(j as int)]
                + crate::ast::names_model(ns0));
        }
        (r2, out)
    } else {
        let mut out: Vec<String> = Vec::new();
        out.push(name);
        proof {
            assert(crate::ast::names_model(out@) =~= seq![d@.take(j as int)]);
        }
        (r1, out)
    }
}

/// Parses a closure.
pub fn parse_closure(input: &str) -> (r: Result<(&str, Expr), ParseErr>)
    ensures
        match r {
            Ok(p) => spec_parse_closure(input@) == Some((p.0@, p.1.model())),
            Err(_) => spec_parse_closure(input@) is None,
        },
    decreases input@.len(), 7nat,
{
    let t0 = ws(input);
    let n0 = t0.unicode_len();
    if n0 < 1 || t0.get_char(0) != '|' {
        return Err(ParseErr { rem: n0 });
    }
    let inner = t0.substring_char(1, n0);
    proof {
        assert(inner@ =~= t0@.drop_first());
    }
    let (r1, ps) = parse_params(inner);
    let nr1 = r1.unicode_len();
    if nr1 < 1 || r1.get_char(0) != '|' {
        return Err(ParseErr { rem: nr1 });
    }
    let tail = r1.substring_char(1, nr1);
    proof {
        assert(tail@ =~= r1@.drop_first());
        lemma_drop_ws_le(input@);
        lemma_params_le(t0@.drop_first());
    }
    match parse_expr_padded(tail) {
        Ok((rest, e)) => {
            let mut body: Vec<Expr> = Vec::new();
            body.push(e);
            proof {
                crate::ast::lemma_exprs_model(body@);
                assert(crate::ast::exprs_model(body@) =~= seq![e.model()]);
            }
            Ok((rest, Expr::Closure(ps, body)))
        },
        Err(err) => Err(err),
    }
}

/// Parses one expression, by ordered choice.
pub fn parse_expr(input: &str) -> (r: Result<(&str, Expr), ParseErr>)
    ensures
        match r {
            Ok(p) => spec_parse_expr(input@) == Some((p.0@, p.1.model())),
            Err(_) => spec_parse_expr(input@) is None,
        },
    decreases input@.len(), 8nat,
{
    match parse_let(input) {
        Ok(p) => Ok(p),
        Err(_) => match parse_call(input) {
            Ok(p) => Ok(p),
            Err(_) => match parse_closure(input) {
                Ok(p) => Ok(p),
                Err(_) => parse_constant(input),
            },
        },
    }
}

/// Parses one expression surrounded by optional whitespace.
fn parse_expr_padded(input: &str) -> (r: Result<(&str, Expr), ParseErr>)
    ensures
        match r {
            Ok(p) => spec_parse_expr_padded(input@) == Some((p.0@, p.1.model())),
            Err(_) => spec_parse_expr_padded(input@) is None,
        },
    decreases input@.len(), 9nat,
{
    let d = ws(input);
    proof {
        lemma_drop_ws_le(input@);
    }
    match parse_expr(d) {
        Ok((r, e)) => Ok((ws(r), e)),
        Err(err) => Err(err),
    }
}

/// Parses a whole program: the top-level expressions in order, and whatever
/// trailing input could not be parsed, for the caller to judge.
pub fn parser(input: &str) -> (r: (&str, Vec<Expr>))
    ensures
        ({
            let (rest, es) = spec_parse_program(input@);
            r.0@ == rest && crate::ast::exprs_model(r.1@) == es
        }),
        r.0@.len() <= input@.len(),
    decreases input@.len(), 13nat,
{
    proof {
        lemma_program_progress(input@);
    }
    match parse_expr_padded(input) {
        Err(_) => {
            let out: Vec<Expr> = Vec::new();
            proof {
                assert(crate::ast::exprs_model(out@) =~= Seq::<ExprV>::empty());
            }
            (input, out)
        },
        Ok((r1, e)) => {
            if r1.unicode_len() < input.unicode_len() {
                let (r2, mut es) = parser(r1);
                let ghost es0 = es@;
                let mut out: Vec<Expr> = Vec::new();
                out.push(e);
                out.append(&mut es);
                proof {
                    assert(out@[0] == e);
                    assert(out@.drop_first() =~= es0);
                }
                (r2, out)
            } else {
                let mut out: Vec<Expr> = Vec::new();
                out.push(e);
                proof {
                    crate::ast::lemma_exprs_model(out@);
                    assert(crate::ast::exprs_model(out@) =~= seq![e.model()]);
                }
                (r1, out)
            }
        },
    }
}

// ---------------------------------------------------------------------------
// Progress: a successful parse always consumes at least one character, and
// the list parsers never hand back more than they were given. The stop
// guards in the list grammars are therefore never taken on any input.
// ---------------------------------------------------------------------------
/// A mantissa, when present, is one to all of the input's characters long.
proof fn lemma_mant_len_bounds(s: Seq<char>)
    ensures
        mant_len(s) matches Some(m) ==> 1 <= m <= s.len(),
{
    lemma_scan_len_le(s, digit_p());
    let d = digit_len(s);
    if d > 0 {
        let u = s.skip(d as int);
        if u.len() > 0 && u[0] == '.' {
            lemma_scan_len_le(u.drop_first(), digit_p());
        }
    } else if s.len() > 0 && s[0] == '.' {
        lemma_scan_len_le(s.drop_first(), digit_p());
    }
}

/// An exponent never reaches past the input.
proof fn lemma_exp_len_bounds(s: Seq<char>)
    ensures
        exp_len(s) <= s.len(),
{
    if s.len() > 0 && (s[0] == 'e' || s[0] == 'E') {
        let t = s.drop_first();
        lemma_scan_len_le(t.skip(sign_len(t) as int), digit_p());
    }
}

/// A successful atom parse consumes at least one character.
proof fn lemma_atom_progress(s: Seq<char>)
    ensures
        spec_parse_atom(s) matches Some(p) ==> p.0.len() < s.len(),
{
    let g = sign_len(s);
    lemma_mant_len_bounds(s.skip(g as int));
    if mant_len(s.skip(g as int)) is Some {
        let m = mant_len(s.skip(g as int))->0;
        lemma_exp_len_bounds(s.skip(g + m as int));
    }
    if s.len() >= 1 && s[0] == '"' {
        lemma_scan_len_le(s.drop_first(), text_p());
    }
    lemma_scan_len_le(s, alpha_p());
}

/// A successful binding parse consumes at least one character.
proof fn lemma_let_progress(s: Seq<char>)
    ensures
        spec_parse_let(s) matches Some(p) ==> p.0.len() < s.len(),
    decreases s.len(), 5nat,
{
    reveal_strlit("vo");
    reveal_strlit("=");
    if starts_with(s, "vo"@) {
        let a = drop_ws(s.skip(2));
        let n = alpha_len(a);
        if n != 0 {
            lemma_drop_ws_le(s.skip(2));
            lemma_scan_len_le(a, alpha_p());
            let b = drop_ws(a.skip(n as int));
            lemma_drop_ws_le(a.skip(n as int));
            if starts_with(b, "="@) {
                lemma_padded_progress(b.skip(1));
            }
        }
    }
}

/// A successful call parse consumes at least one character.
proof fn lemma_call_progress(s: Seq<char>)
    ensures
        spec_parse_call(s) matches Some(p) ==> p.0.len() < s.len(),
    decreases s.len(), 6nat,
{
    let n = alpha_len(s);
    if n != 0 {
        lemma_scan_len_le(s, alpha_p());
        let t = s.skip(n as int);
        if t.len() > 0 && t[0] == '(' {
            lemma_args_progress(t.drop_first());
        }
    }
}

/// A successful closure parse consumes at least one character.
proof fn lemma_closure_progress(s: Seq<char>)
    ensures
        spec_parse_closure(s) matches Some(p) ==> p.0.len() < s.len(),
    decreases s.len(), 7nat,
{
    let t0 = drop_ws(s);
    lemma_drop_ws_le(s);
    if t0.len() > 0 && t0[0] == '|' {
        lemma_params_le(t0.drop_first());
        let (r1, ps) = spec_parse_params(t0.drop_first());
        if r1.len() > 0 && r1[0] == '|' {
            lemma_padded_progress(r1.drop_first());
        }
    }
}

/// A successful expression parse consumes at least one character.
pub proof fn lemma_expr_progress(s: Seq<char>)
    ensures
        spec_parse_expr(s) matches Some(p) ==> p.0.len() < s.len(),
    decreases s.len(), 8nat,
{
    lemma_let_progress(s);
    lemma_call_progress(s);
    lemma_closure_progress(s);
    lemma_atom_progress(s);
}

/// A successful padded expression parse consumes at least one character.
proof fn lemma_padded_progress(s: Seq<char>)
    ensures
        spec_parse_expr_padded(s) matches Some(p) ==> p.0.len() < s.len(),
    decreases s.len(), 9nat,
{
    lemma_drop_ws_le(s);
    let d = drop_ws(s);
    lemma_expr_progress(d);
    if spec_parse_expr(d) is Some {
        let p = spec_parse_expr(d)->0;
        lemma_drop_ws_le(p.0);
    }
}

/// An argument list never hands back more than it was given.
proof fn lemma_args_progress(s: Seq<char>)
    ensures
        spec_parse_args(s).0.len() <= s.len(),
    decreases s.len(), 11nat,
{
    lemma_padded_progress(s);
    if spec_parse_expr_padded(s) is Some {
        let (r1, e) = spec_parse_expr_padded(s)->0;
        lemma_args_rest_progress(r1);
    }
}

/// An argument list continuation never hands back more than it was given.
proof fn lemma_args_rest_progress(s: Seq<char>)
    ensures
        spec_parse_args_rest(s).0.len() <= s.len(),
    decreases s.len(), 12nat,
{
    if s.len() > 0 && s[0] == ',' {
        lemma_padded_progress(s.drop_first());
        if spec_parse_expr_padded(s.drop_first()) is Some {
            let (r1, e) = spec_parse_expr_padded(s.drop_first())->0;
            if r1.len() < s.len() {
                lemma_args_rest_progress(r1);
            }
        }
    }
}

/// A program parse never hands back more than it was given.
pub proof fn lemma_program_progress(s: Seq<char>)
    ensures
        spec_parse_program(s).0.len() <= s.len(),
    decreases s.len(), 13nat,
{
    lemma_padded_progress(s);
    if spec_parse_expr_padded(s) is Some {
        let (r, e) = spec_parse_expr_padded(s)->0;
        lemma_program_progress(r);
    }
}

// ---------------------------------------------------------------------------
// Laws of the grammar.
// ---------------------------------------------------------------------------
/// For any string contents without a `"`, parsing the quoted text yields
/// exactly that string constant, character for character, and consumes the
/// whole input.
pub proof fn lemma_parse_string_exact(s: Seq<char>)
    requires
        forall|i: int| 0 <= i < s.len() ==> s[i] != '"',
    ensures
        spec_parse_expr("\""@ + s + "\""@) == Some(
            (Seq::<char>::empty(), ExprV::Constant(AtomV::String(s))),
        ),
{
    reveal_strlit("\"");
    reveal_strlit("vo");
    let q = "\""@;
    let input = q + s + q;
    assert(input.len() == s.len() + 2);
    assert(input[0] == '"');
    assert(input.skip(0) =~= input);
    // No alternative that opens with a letter, a sign, a digit, a point or
    // whitespace matches a leading quote.
    assert(!starts_with(input, "vo"@)) by {
        if starts_with(input, "vo"@) {
            assert(input.subrange(0, 2)[0] == input[0]);
        }
    }
    assert(spec_parse_let(input) is None);
    assert(alpha_len(input) == 0);
    assert(spec_parse_call(input) is None);
    assert(ws_len(input) == 0);
    assert(drop_ws(input) == input);
    assert(spec_parse_closure(input) is None);
    assert(sign_len(input) == 0);
    assert(digit_len(input) == 0);
    assert(mant_len(input.skip(0)) is None);
    assert(spec_parse_float(input) is None);
    // The string alternative itself.
    let t = input.drop_first();
    assert(t =~= s + q);
    lemma_scan_len_concat(s, q, text_p());
    assert(text_len(t) == s.len());
    assert(t.take(s.len() as int) =~= s);
    assert(t.skip(s.len() as int + 1) =~= Seq::<char>::empty());
    assert(spec_parse_string(input) == Some(
        (Seq::<char>::empty(), AtomV::String(s)),
    ));
}

/// For any alphabetic identifier, any whitespace around the keyword, the
/// name and the `=`, and any right-hand text that parses as an expression
/// consuming everything, parsing the assembled binding yields exactly the
/// binding of that name to that expression, and consumes the whole input.
pub proof fn lemma_parse_let_exact(
    w1: Seq<char>,
    w2: Seq<char>,
    w3: Seq<char>,
    n: Seq<char>,
    t: Seq<char>,
    e: ExprV,
)
    requires
        forall|i: int| 0 <= i < w1.len() ==> is_space(w1[i]),
        forall|i: int| 0 <= i < w2.len() ==> is_space(w2[i]),
        forall|i: int| 0 <= i < w3.len() ==> is_space(w3[i]),
        n.len() > 0,
        forall|i: int| 0 <= i < n.len() ==> is_alpha(n[i]),
        spec_parse_expr_padded(t) == Some((Seq::<char>::empty(), e)),
    ensures
        spec_parse_expr("vo"@ + w1 + n + w2 + "="@ + w3 + t) == Some(
            (Seq::<char>::empty(), ExprV::Let(n, Box::new(e))),
        ),
{
    reveal_strlit("vo");
    reveal_strlit("=");
    let eq = "="@;
    let input = "vo"@ + w1 + n + w2 + eq + w3 + t;
    assert(starts_with(input, "vo"@)) by {
        assert(input.subrange(0, 2) =~= "vo"@);
    }
    let rest1 = w1 + (n + w2 + eq + w3 + t);
    assert(input.skip(2) =~= rest1);
    let rest2 = n + (w2 + eq + w3 + t);
    assert forall|i: int| 0 <= i < rest2.len() && i >= n.len() implies rest2[i] == (w2 + eq + w3
        + t)[i - n.len()] by {}
    lemma_drop_ws_concat(w1, rest2);
    assert(rest1 =~= w1 + rest2);
    assert((w2 + eq + w3 + t)[0] == (if w2.len() > 0 {
        w2[0]
    } else {
        '='
    }));
    assert(!is_space(rest2[0]));
    assert(drop_ws(rest2) == rest2) by {
        assert(ws_len(rest2) == 0);
        assert(rest2.skip(0) =~= rest2);
    }
    assert(drop_ws(input.skip(2)) == rest2);
    // The name is read whole: what follows it is not alphabetic.
    lemma_scan_len_concat(n, w2 + eq + w3 + t, alpha_p());
    assert(alpha_len(rest2) == n.len());
    assert(rest2.take(n.len() as int) =~= n);
    // Whitespace up to the `=` is dropped.
    let rest3 = eq + (w3 + t);
    assert(rest2.skip(n.len() as int) =~= w2 + (eq + w3 + t));
    lemma_drop_ws_concat(w2, eq + w3 + t);
    assert(eq + w3 + t =~= rest3);
    assert((eq + w3 + t)[0] == '=');
    assert(drop_ws(eq + w3 + t) == eq + w3 + t) by {
        assert(ws_len(eq + w3 + t) == 0);
        assert((eq + w3 + t).skip(0) =~= eq + w3 + t);
    }
    let b = drop_ws(rest2.skip(n.len() as int));
    assert(b == eq + w3 + t);
    assert(starts_with(b, eq)) by {
        assert(b.subrange(0, 1) =~= eq);
    }
    // The right-hand side: leading whitespace folds into the padded parser.
    assert(b.skip(1) =~= w3 + t);
    lemma_drop_ws_concat(w3, t);
    assert(spec_parse_expr_padded(w3 + t) == spec_parse_expr_padded(t)) by {
        assert(drop_ws(w3 + t) == drop_ws(t));
    }
    assert(spec_parse_let(input) == Some(
        (Seq::<char>::empty(), ExprV::Let(n, Box::new(e))),
    ));
}

} // verus!
