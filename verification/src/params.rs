//! Gate parameters: angles written as a decimal number or as a multiple of pi.

use vstd::prelude::*;
use vstd::string::*;
use crate::case::{lowercase_of, to_lowercase};
use crate::pattern::{group, group_text, groups_of, captures_in, Pattern};
use crate::text::{chars_of, is_digit, seqs_of, split, split_at, string_of, trim, trimmed};

verus! {

/// A gate parameter as it is written: either a decimal number, or a multiple
/// of pi with an optional coefficient and an optional divisor.
#[derive(Debug)]
pub enum ParamExpr {
    /// A number, kept as its text.
    Number { text: String },
    /// `[-][coeff*]pi[/denom]`; an empty `coeff` or `denom` is absent.
    Pi { negative: bool, coeff: String, denom: String },
}

/// The mathematical content of a [`ParamExpr`].
pub ghost enum ParamView {
    Number { text: Seq<char> },
    Pi { negative: bool, coeff: Seq<char>, denom: Seq<char> },
}

impl View for ParamExpr {
    type V = ParamView;

    open spec fn view(&self) -> ParamView {
        match self {
            ParamExpr::Number { text } => ParamView::Number { text: text@ },
            ParamExpr::Pi { negative, coeff, denom } => ParamView::Pi {
                negative: *negative,
                coeff: coeff@,
                denom: denom@,
            },
        }
    }
}

impl Clone for ParamExpr {
    fn clone(&self) -> (r: Self)
        ensures
            r@ == self@,
    {
        match self {
            ParamExpr::Number { text } => ParamExpr::Number { text: text.clone() },
            ParamExpr::Pi { negative, coeff, denom } => ParamExpr::Pi {
                negative: *negative,
                coeff: coeff.clone(),
                denom: denom.clone(),
            },
        }
    }
}

/// The contents of a vector of parameters.
pub open spec fn params_of(v: Seq<ParamExpr>) -> Seq<ParamView> {
    v.map_values(|p: ParamExpr| p@)
}

/// A copy of a vector of parameters.
pub fn clone_params(v: &Vec<ParamExpr>) -> (r: Vec<ParamExpr>)
    ensures
        params_of(r@) == params_of(v@),
{
    let mut r: Vec<ParamExpr> = Vec::new();
    let mut i: usize = 0;
    while i < v.len()
        invariant
            i <= v.len(),
            params_of(r@) == params_of(v@.take(i as int)),
        decreases v.len() - i,
    {
        let ghost r0 = r@;
        let x = v[i].clone();
        r.push(x);
        assert(params_of(r@) =~= params_of(r0).push(x@));
        assert(params_of(v@.take(i + 1)) =~= params_of(v@.take(i as int)).push(v@[i as int]@));
        i += 1;
    }
    assert(v@.take(i as int) =~= v@);
    r
}

/// How a parameter is written: a number as its text; a multiple of pi as an
/// optional `-`, the coefficient with `*` where there is one, `pi`, and `/`
/// with the divisor where there is one.
pub open spec fn param_text(p: ParamView) -> Seq<char> {
    match p {
        ParamView::Number { text } => text,
        ParamView::Pi { negative, coeff, denom } => (if negative {
            "-"@
        } else {
            Seq::empty()
        }) + (if coeff.len() > 0 {
            coeff + "*"@
        } else {
            Seq::empty()
        }) + "pi"@ + (if denom.len() > 0 {
            "/"@ + denom
        } else {
            Seq::empty()
        }),
    }
}

/// Appends the writing of `p` to `s`.
pub fn push_param(s: &mut String, p: &ParamExpr)
    ensures
        final(s)@ == old(s)@ + param_text(p@),
{
    match p {
        ParamExpr::Number { text } => {
            s.append(text.as_str());
        },
        ParamExpr::Pi { negative, coeff, denom } => {
            let ghost a = if *negative {
                "-"@
            } else {
                Seq::<char>::empty()
            };
            let ghost b = if coeff@.len() > 0 {
                coeff@ + "*"@
            } else {
                Seq::<char>::empty()
            };
            let ghost c = if denom@.len() > 0 {
                "/"@ + denom@
            } else {
                Seq::<char>::empty()
            };
            if *negative {
                s.append("-");
            }
            assert(s@ =~= old(s)@ + a);
            if !coeff.as_str().is_empty() {
                s.append(coeff.as_str());
                s.append("*");
            }
            assert(s@ =~= old(s)@ + a + b);
            s.append("pi");
            if !denom.as_str().is_empty() {
                s.append("/");
                s.append(denom.as_str());
            }
            assert(s@ =~= old(s)@ + (a + b + "pi"@ + c));
        },
    }
}

/// The writing of a parameter.
pub fn format_param(p: &ParamExpr) -> (r: String)
    ensures
        r@ == param_text(p@),
{
    let mut s = String::new();
    push_param(&mut s, p);
    assert(s@ =~= param_text(p@));
    s
}

/// The place of the first character at or after `i` that is no ASCII digit.
pub open spec fn digits_end(s: Seq<char>, i: int) -> int
    decreases s.len() - i,
{
    if 0 <= i < s.len() && is_digit(s[i]) {
        digits_end(s, i + 1)
    } else {
        i
    }
}

/// Whether `c` is `+` or `-`.
pub open spec fn is_sign(c: char) -> bool {
    c == '+' || c == '-'
}

/// Whether `s` from `i` on is an exponent: `e` or `E`, an optional sign, and
/// one digit or more up to the end.
pub open spec fn is_exponent(s: Seq<char>, i: int) -> bool {
    &&& 0 <= i < s.len()
    &&& (s[i] == 'e' || s[i] == 'E')
    &&& {
        let j = if i + 1 < s.len() && is_sign(s[i + 1]) {
            i + 2
        } else {
            i + 1
        };
        j < s.len() && digits_end(s, j) == s.len()
    }
}

/// Whether `s` is a decimal number: digits with an optional point among
/// them, one digit at least, and an optional exponent.
pub open spec fn is_number(s: Seq<char>) -> bool {
    let a = digits_end(s, 0);
    let dot = a < s.len() && s[a] == '.';
    let b = if dot {
        digits_end(s, a + 1)
    } else {
        a
    };
    (a > 0 || (dot && b > a + 1)) && (b == s.len() || is_exponent(s, b))
}

/// `s` without a sign at its start.
pub open spec fn unsigned(s: Seq<char>) -> Seq<char> {
    if s.len() > 0 && is_sign(s[0]) {
        s.skip(1)
    } else {
        s
    }
}

/// Whether `s` is a number literal: an optional sign, then a decimal
/// number. A word for an infinity or for no number is none.
pub open spec fn is_float_literal(s: Seq<char>) -> bool {
    is_number(unsigned(s))
}

/// Whether every digit of `s` from `i` up to its exponent is `0`.
pub open spec fn zero_mantissa(s: Seq<char>, i: int) -> bool
    decreases s.len() - i,
{
    if i < 0 || i >= s.len() || s[i] == 'e' || s[i] == 'E' {
        true
    } else if is_digit(s[i]) && s[i] != '0' {
        false
    } else {
        zero_mantissa(s, i + 1)
    }
}

fn scan_digits(v: &Vec<char>, i: usize) -> (r: usize)
    requires
        i <= v.len(),
    ensures
        r == digits_end(v@, i as int),
        i <= r <= v.len(),
{
    let mut j = i;
    while j < v.len() && '0' <= v[j] && v[j] <= '9'
        invariant
            i <= j <= v.len(),
            digits_end(v@, i as int) == digits_end(v@, j as int),
        decreases v.len() - j,
    {
        j += 1;
    }
    j
}

fn check_number(v: &Vec<char>, from: usize) -> (r: bool)
    requires
        from <= v.len(),
    ensures
        r == is_number(v@.skip(from as int)),
{
    let ghost s = v@.skip(from as int);
    let n = v.len();
    proof {
        lemma_digits_end_skip(v@, from as int, 0);
    }
    let a = scan_digits(v, from);
    assert(digits_end(s, 0) == a - from);
    let dot = a < n && v[a] == '.';
    assert(a < n ==> s[a - from] == v@[a as int]);
    let b = if dot {
        proof {
            lemma_digits_end_skip(v@, from as int, a + 1 - from);
        }
        scan_digits(v, a + 1)
    } else {
        a
    };
    if !(a > from || (dot && b > a + 1)) {
        return false;
    }
    if b == n {
        return true;
    }
    assert(s[b - from] == v@[b as int]);
    if !(v[b] == 'e' || v[b] == 'E') {
        return false;
    }
    let j = if b + 1 < n && (v[b + 1] == '+' || v[b + 1] == '-') {
        b + 2
    } else {
        b + 1
    };
    assert(b + 1 < n ==> s[b + 1 - from] == v@[b + 1]);
    if j >= n {
        return false;
    }
    proof {
        lemma_digits_end_skip(v@, from as int, j - from);
    }
    let e = scan_digits(v, j);
    e == n
}

proof fn lemma_digits_end_skip(s: Seq<char>, from: int, i: int)
    requires
        0 <= from <= s.len(),
        0 <= i <= s.len() - from,
    ensures
        digits_end(s.skip(from), i) == digits_end(s, from + i) - from,
    decreases s.len() - from - i,
{
    if i < s.len() - from {
        assert(s.skip(from)[i] == s[from + i]);
        if is_digit(s[from + i]) {
            lemma_digits_end_skip(s, from, i + 1);
        }
    }
}

/// Whether the characters are a number literal.
pub fn check_float_literal(v: &Vec<char>) -> (r: bool)
    ensures
        r == is_float_literal(v@),
{
    let from: usize = if v.len() > 0 && (v[0] == '+' || v[0] == '-') {
        1
    } else {
        0
    };
    assert(unsigned(v@) =~= v@.skip(from as int));
    check_number(v, from)
}

/// Whether every digit of the characters up to the exponent is `0`.
pub fn check_zero(v: &Vec<char>) -> (r: bool)
    ensures
        r == zero_mantissa(v@, 0),
{
    let mut i: usize = 0;
    while i < v.len()
        invariant
            i <= v.len(),
            zero_mantissa(v@, 0) == zero_mantissa(v@, i as int),
        decreases v.len() - i,
    {
        let c = v[i];
        if c == 'e' || c == 'E' {
            return true;
        }
        if '0' <= c && c <= '9' && c != '0' {
            return false;
        }
        i += 1;
    }
    true
}

/// A multiple of pi: an optional `-`, an optional coefficient with an
/// optional `*`, `pi`, and an optional divisor after `/`, with white space
/// allowed around `*` and `/`.
pub const PI_PATTERN: &'static str =
    "^(-?)(\\d*\\.?\\d*)\\s*\\*?\\s*pi(?:\\s*/\\s*(\\d+\\.?\\d*))?$";

/// The multiple of pi that the groups of a match of `PI_PATTERN` describe:
/// none where the coefficient or the divisor is no number literal, or the
/// divisor is zero.
pub open spec fn pi_of_groups(g: Seq<Option<Seq<char>>>) -> Option<ParamView> {
    let coeff = group_text(g, 2);
    let denom = group_text(g, 3);
    if coeff.len() > 0 && !is_float_literal(coeff) {
        None
    } else if denom.len() > 0 && (!is_float_literal(denom) || zero_mantissa(denom, 0)) {
        None
    } else {
        Some(ParamView::Pi { negative: group_text(g, 1) == "-"@, coeff, denom })
    }
}

/// What a match of `PI_PATTERN` holds for a multiple of pi that is written
/// with the given sign, coefficient and divisor: the whole text, the sign,
/// the coefficient, and the divisor where there is one.
pub open spec fn written_parts(negative: bool, coeff: Seq<char>, denom: Seq<char>) -> Seq<
    Option<Seq<char>>,
> {
    seq![
        Some(param_text(ParamView::Pi { negative, coeff, denom })),
        Some(
            if negative {
                "-"@
            } else {
                Seq::empty()
            },
        ),
        Some(coeff),
        if denom.len() > 0 {
            Some(denom)
        } else {
            None
        },
    ]
}

/// Whether coefficient and divisor are those of a common fraction of pi:
/// `2*pi`, `pi`, `pi/2`, `pi/3`, `pi/4`, `pi/6`, `pi/8`, `3*pi/4`, `3*pi/2`
/// or `2*pi/3`.
pub open spec fn is_common_fraction(coeff: Seq<char>, denom: Seq<char>) -> bool {
    ||| coeff == "2"@ && denom.len() == 0
    ||| coeff.len() == 0 && denom.len() == 0
    ||| coeff.len() == 0 && denom == "2"@
    ||| coeff.len() == 0 && denom == "3"@
    ||| coeff.len() == 0 && denom == "4"@
    ||| coeff.len() == 0 && denom == "6"@
    ||| coeff.len() == 0 && denom == "8"@
    ||| coeff == "3"@ && denom == "4"@
    ||| coeff == "3"@ && denom == "2"@
    ||| coeff == "2"@ && denom == "3"@
}

/// A multiple of pi is read back from the parts that it is written with as
/// it was, where its coefficient, if any, is a number and its divisor, if
/// any, a number that is not zero. Which parts the pattern finds in the
/// written text is not part of this.
pub proof fn lemma_written_parts_read_back(negative: bool, coeff: Seq<char>, denom: Seq<char>)
    requires
        coeff.len() == 0 || is_float_literal(coeff),
        denom.len() == 0 || (is_float_literal(denom) && !zero_mantissa(denom, 0)),
    ensures
        pi_of_groups(written_parts(negative, coeff, denom)) == Some(
            ParamView::Pi { negative, coeff, denom },
        ),
{
    reveal_strlit("-");
    let g = written_parts(negative, coeff, denom);
    assert(group_text(g, 2) == coeff);
    assert(group_text(g, 3) =~= denom);
    assert((group_text(g, 1) == "-"@) == negative);
}

/// One digit other than `0` is a number that is not zero.
pub proof fn lemma_digit_is_number(s: Seq<char>)
    requires
        s.len() == 1,
        is_digit(s[0]),
        s[0] != '0',
    ensures
        is_float_literal(s),
        !zero_mantissa(s, 0),
{
    assert(unsigned(s) == s);
    assert(digits_end(s, 1) == 1);
    assert(digits_end(s, 0) == 1);
}

/// Each common fraction of pi, positive or negative, is read back from the
/// parts that it is written with as it was.
pub proof fn lemma_common_fractions_read_back(negative: bool, coeff: Seq<char>, denom: Seq<char>)
    requires
        is_common_fraction(coeff, denom),
    ensures
        pi_of_groups(written_parts(negative, coeff, denom)) == Some(
            ParamView::Pi { negative, coeff, denom },
        ),
{
    reveal_strlit("2");
    reveal_strlit("3");
    reveal_strlit("4");
    reveal_strlit("6");
    reveal_strlit("8");
    if coeff.len() > 0 {
        lemma_digit_is_number(coeff);
    }
    if denom.len() > 0 {
        lemma_digit_is_number(denom);
    }
    lemma_written_parts_read_back(negative, coeff, denom);
}

/// The parameter that a text writes: none for an empty text; a number for a
/// number literal; else what `PI_PATTERN` finds in the text in lower case.
/// White space around the text does not count.
pub open spec fn param_of_text(s: Seq<char>) -> Option<ParamView> {
    let t = trimmed(s);
    if t.len() == 0 {
        None
    } else if is_float_literal(t) {
        Some(ParamView::Number { text: t })
    } else {
        match captures_in(PI_PATTERN@, lowercase_of(t)) {
            Some(g) => pi_of_groups(g),
            None => None,
        }
    }
}

/// The view of an optional parameter.
pub open spec fn opt_param(p: Option<ParamExpr>) -> Option<ParamView> {
    match p {
        Some(x) => Some(x@),
        None => None,
    }
}

/// The multiple of pi that the groups of a match of `PI_PATTERN` describe.
pub fn pi_from_captures(groups: &Vec<Option<String>>) -> (r: Option<ParamExpr>)
    ensures
        opt_param(r) == pi_of_groups(groups_of(groups@)),
{
    let sign = group(groups, 1);
    let coeff = group(groups, 2);
    let denom = group(groups, 3);
    if !coeff.as_str().is_empty() && !check_float_literal(&chars_of(coeff.as_str())) {
        return None;
    }
    if !denom.as_str().is_empty() {
        let d = chars_of(denom.as_str());
        if !check_float_literal(&d) || check_zero(&d) {
            return None;
        }
    }
    let negative = crate::text::same_text(sign.as_str(), "-");
    Some(ParamExpr::Pi { negative, coeff, denom })
}

/// The pattern of a multiple of pi, compiled.
pub struct PiPattern {
    pattern: Pattern,
}

impl PiPattern {
    #[verifier::type_invariant]
    spec fn inv(self) -> bool {
        self.pattern.source() == PI_PATTERN@
    }

    /// Compiles the pattern.
    pub fn new() -> (r: PiPattern)
        ensures
            r.source() == PI_PATTERN@,
    {
        PiPattern { pattern: Pattern::new(PI_PATTERN) }
    }

    /// The text of the pattern that is held.
    pub closed spec fn source(&self) -> Seq<char> {
        self.pattern.source()
    }

    /// Reads a parameter: a number, or a multiple of pi such as `pi/2`,
    /// `3*pi/4` or `-pi`. Gives `None` where the text is neither.
    pub fn parse(&self, s: &str) -> (r: Option<ParamExpr>)
        ensures
            opt_param(r) == param_of_text(s@),
    {
        proof {
            use_type_invariant(self);
        }
        let t = trim(&chars_of(s));
        if t.len() == 0 {
            return None;
        }
        let text = string_of(&t);
        if check_float_literal(&t) {
            return Some(ParamExpr::Number { text });
        }
        let low = to_lowercase(text.as_str());
        match self.pattern.captures(low.as_str()) {
            Some(g) => pi_from_captures(&g),
            None => None,
        }
    }

    /// Reads a list of parameters with commas between them. Blank entries
    /// do not count; one entry that is no parameter makes the whole list
    /// fail.
    pub fn parse_list(&self, input: &str) -> (r: Option<Vec<ParamExpr>>)
        ensures
            opt_params(r) == params_of_pieces(split(input@, ',')),
    {
        let pieces = split_at(&chars_of(input), ',');
        let mut out: Vec<ParamExpr> = Vec::new();
        let mut i: usize = 0;
        let ghost all = seqs_of(pieces@);
        assert(params_of(out@) =~= Seq::empty());
        while i < pieces.len()
            invariant
                i <= pieces.len(),
                all == seqs_of(pieces@),
                all == split(input@, ','),
                params_of_pieces(all.take(i as int)) == Some(params_of(out@)),
            decreases pieces.len() - i,
        {
            assert(all.take(i + 1).drop_last() =~= all.take(i as int));
            assert(all.take(i + 1).last() == pieces@[i as int]@);
            let t = trim(&pieces[i]);
            if t.len() > 0 {
                let text = string_of(&pieces[i]);
                match self.parse(text.as_str()) {
                    Some(p) => {
                        let ghost o0 = out@;
                        let ghost pv = p@;
                        out.push(p);
                        assert(params_of(out@) =~= params_of(o0).push(pv));
                    },
                    None => {
                        proof {
                            lemma_pieces_fail(all, i + 1);
                        }
                        return None;
                    },
                }
            }
            i += 1;
        }
        assert(all.take(i as int) =~= all);
        Some(out)
    }

    /// Reads a list of parameters with commas between them, leaving out
    /// the entries that are no parameter.
    pub fn parse_valid(&self, input: &str) -> (r: Vec<ParamExpr>)
        ensures
            params_of(r@) == valid_params_of_pieces(split(input@, ',')),
    {
        let pieces = split_at(&chars_of(input), ',');
        let mut out: Vec<ParamExpr> = Vec::new();
        let mut i: usize = 0;
        let ghost all = seqs_of(pieces@);
        assert(params_of(out@) =~= Seq::empty());
        while i < pieces.len()
            invariant
                i <= pieces.len(),
                all == seqs_of(pieces@),
                valid_params_of_pieces(all.take(i as int)) == params_of(out@),
            decreases pieces.len() - i,
        {
            assert(all.take(i + 1).drop_last() =~= all.take(i as int));
            assert(all.take(i + 1).last() == pieces@[i as int]@);
            let text = string_of(&pieces[i]);
            if let Some(p) = self.parse(text.as_str()) {
                let ghost o0 = out@;
                let ghost pv = p@;
                out.push(p);
                assert(params_of(out@) =~= params_of(o0).push(pv));
            }
            i += 1;
        }
        assert(all.take(i as int) =~= all);
        out
    }
}

/// Reads a parameter: a number, or a multiple of pi such as `pi/2`,
/// `3*pi/4` or `-pi`. Gives `None` where the text is neither.
pub fn parse_param_expr(s: &str) -> (r: Option<ParamExpr>)
    ensures
        opt_param(r) == param_of_text(s@),
{
    PiPattern::new().parse(s)
}

/// The parameters that the pieces write, where every piece that is not
/// blank writes one.
pub open spec fn params_of_pieces(pieces: Seq<Seq<char>>) -> Option<Seq<ParamView>>
    decreases pieces.len(),
{
    if pieces.len() == 0 {
        Some(Seq::empty())
    } else {
        match params_of_pieces(pieces.drop_last()) {
            None => None,
            Some(v) => if trimmed(pieces.last()).len() == 0 {
                Some(v)
            } else {
                match param_of_text(pieces.last()) {
                    Some(p) => Some(v.push(p)),
                    None => None,
                }
            },
        }
    }
}

/// The parameters that the pieces write, without the pieces that write
/// none.
pub open spec fn valid_params_of_pieces(pieces: Seq<Seq<char>>) -> Seq<ParamView>
    decreases pieces.len(),
{
    if pieces.len() == 0 {
        Seq::empty()
    } else {
        let v = valid_params_of_pieces(pieces.drop_last());
        match param_of_text(pieces.last()) {
            Some(p) => v.push(p),
            None => v,
        }
    }
}

/// The view of an optional vector of parameters.
pub open spec fn opt_params(p: Option<Vec<ParamExpr>>) -> Option<Seq<ParamView>> {
    match p {
        Some(x) => Some(params_of(x@)),
        None => None,
    }
}

/// Reads a list of parameters with commas between them. Blank entries do
/// not count; one entry that is no parameter makes the whole list fail.
pub fn parse_params(input: &str) -> (r: Option<Vec<ParamExpr>>)
    ensures
        opt_params(r) == params_of_pieces(split(input@, ',')),
{
    PiPattern::new().parse_list(input)
}

proof fn lemma_pieces_fail(pieces: Seq<Seq<char>>, k: int)
    requires
        0 <= k <= pieces.len(),
        params_of_pieces(pieces.take(k)) is None,
    ensures
        params_of_pieces(pieces) is None,
    decreases pieces.len() - k,
{
    if k < pieces.len() {
        assert(pieces.take(k + 1).drop_last() =~= pieces.take(k));
        lemma_pieces_fail(pieces, k + 1);
    } else {
        assert(pieces.take(k) =~= pieces);
    }
}

/// Reads a list of parameters with commas between them, leaving out the
/// entries that are no parameter.
pub fn parse_valid_params(input: &str) -> (r: Vec<ParamExpr>)
    ensures
        params_of(r@) == valid_params_of_pieces(split(input@, ',')),
{
    PiPattern::new().parse_valid(input)
}

} // verus!
