//! Executable recognizers for the leaf tokens of the grammar.
use vstd::prelude::*;
use crate::grammar::{
    all_digits, at, at_no_case, int_of_parts, color_at, date_at, digits_end, digits_value,
    float_at, ident_end, int_at, int_of_text, is_digit, is_ident_char, is_ws, mantissa_end,
    numeral_end, skip_ws, str_at, str_close, unquoted_at, Parsed,
};
use crate::value::Node;
use crate::value::Failure;

verus! {

/// A token as start and end of its text and the position after it.
pub type Span = Result<(usize, usize, usize), Failure>;

/// The model of a [`Span`] over the characters `s`.
pub open spec fn span_view(s: Seq<char>, r: Span) -> Parsed<Seq<char>> {
    match r {
        Ok((a, b, n)) => Ok((s.subrange(a as int, b as int), n as int)),
        Err(f) => Err(f),
    }
}

/// A span whose text lies in `s` and that ends after `p`.
pub open spec fn span_ok(s: Seq<char>, p: int, r: Span) -> bool {
    r matches Ok((a, b, n)) ==> a <= b <= n <= s.len() && p < n
}

/// The characters of `input`, in order.
pub fn chars_of(input: &str) -> (r: Vec<char>)
    ensures
        r@ == input@,
{
    broadcast use vstd::string::axiom_spec_iter;
    let mut v: Vec<char> = Vec::new();
    for c in it: input.chars()
        invariant
            it.seq() == input@,
            v@ == it.seq().take(it.index() as int),
    {
        proof {
            assert(it.seq().take(it.index() as int + 1) =~= v@.push(c));
        }
        v.push(c);
    }
    proof {
        assert(v@ =~= input@);
    }
    v
}

/// Relies on `String::from_iter` over chars: the string holds the characters in order.
#[verifier::external_body]
fn string_from_chars(cs: &[char]) -> (r: String)
    ensures
        r@ == cs@,
{
    String::from_iter(cs)
}

/// The text of the characters `s[a..b]`.
pub fn text_of(s: &Vec<char>, a: usize, b: usize) -> (r: String)
    requires
        a <= b <= s.len(),
    ensures
        r@ == s@.subrange(a as int, b as int),
{
    string_from_chars(vstd::slice::slice_subrange(s.as_slice(), a, b))
}

pub fn is_ws_char(c: char) -> (r: bool)
    ensures
        r == is_ws(c),
{
    c == ' ' || c == '\t' || c == '\n' || c == '\r'
}

pub fn is_digit_char(c: char) -> (r: bool)
    ensures
        r == is_digit(c),
{
    '0' <= c && c <= '9'
}

/// Whether `c` may stand in an unquoted identifier.
pub fn is_ident_char_exec(c: char) -> (r: bool)
    ensures
        r == is_ident_char(c),
{
    !is_ws_char(c) && c != '"' && c != '=' && c != '{' && c != '}' && c != '<' && c != '>'
        && c != '[' && c != ']' && c != '#' && c != '$' && c != '|'
}

pub fn char_at(s: &Vec<char>, i: usize, c: char) -> (r: bool)
    ensures
        r == at(s@, i as int, c),
{
    i < s.len() && s[i] == c
}

pub fn skip_whitespace(s: &Vec<char>, i: usize) -> (r: usize)
    requires
        i <= s.len(),
    ensures
        r as int == skip_ws(s@, i as int),
        i <= r <= s.len(),
{
    let mut j = i;
    while j < s.len() && is_ws_char(s[j])
        invariant
            i <= j <= s.len(),
            skip_ws(s@, i as int) == skip_ws(s@, j as int),
        decreases s.len() - j,
    {
        j = j + 1;
    }
    j
}

pub fn digits_until(s: &Vec<char>, i: usize) -> (r: usize)
    requires
        i <= s.len(),
    ensures
        r as int == digits_end(s@, i as int),
        i <= r <= s.len(),
{
    let mut j = i;
    while j < s.len() && is_digit_char(s[j])
        invariant
            i <= j <= s.len(),
            digits_end(s@, i as int) == digits_end(s@, j as int),
        decreases s.len() - j,
    {
        j = j + 1;
    }
    j
}

pub fn ident_until(s: &Vec<char>, i: usize) -> (r: usize)
    requires
        i <= s.len(),
    ensures
        r as int == ident_end(s@, i as int),
        i <= r <= s.len(),
{
    let mut j = i;
    while j < s.len() && is_ident_char_exec(s[j])
        invariant
            i <= j <= s.len(),
            ident_end(s@, i as int) == ident_end(s@, j as int),
        decreases s.len() - j,
    {
        j = j + 1;
    }
    j
}

/// Recognizes a date at `p`.
pub fn date_token(s: &Vec<char>, p: usize) -> (r: Span)
    requires
        p <= s.len(),
    ensures
        span_view(s@, r) == date_at(s@, p as int),
        span_ok(s@, p as int, r),
{
    let q = skip_whitespace(s, p);
    let a = digits_until(s, q);
    if char_at(s, a, '.') {
        let b = digits_until(s, a + 1);
        if char_at(s, b, '.') {
            let c = digits_until(s, b + 1);
            Ok((q, c, c))
        } else {
            Err(Failure::Backtrack)
        }
    } else {
        Err(Failure::Backtrack)
    }
}

fn at_no_case_exec(s: &Vec<char>, i: usize, lower: char, upper: char) -> (r: bool)
    ensures
        r == at_no_case(s@, i as int, lower, upper),
{
    char_at(s, i, lower) || char_at(s, i, upper)
}

/// The end of the numeric token at `q`.
pub fn numeral_until(s: &Vec<char>, q: usize) -> (r: Result<usize, Failure>)
    requires
        q <= s.len(),
    ensures
        r matches Ok(e) ==> numeral_end(s@, q as int) == Ok::<int, Failure>(e as int) && q < e <= s.len(),
        r matches Err(f) ==> numeral_end(s@, q as int) == Err::<int, Failure>(f),
{
    let i = if char_at(s, q, '+') || char_at(s, q, '-') {
        q + 1
    } else {
        q
    };
    let d = digits_until(s, i);
    let mantissa: Option<usize> = if d > i {
        if char_at(s, d, '.') {
            Some(digits_until(s, d + 1))
        } else {
            Some(d)
        }
    } else if char_at(s, i, '.') && digits_until(s, i + 1) > i + 1 {
        Some(digits_until(s, i + 1))
    } else {
        None
    };
    assert(match mantissa {
        Some(j) => mantissa_end(s@, i as int) == Some(j as int),
        None => mantissa_end(s@, i as int) is None,
    });
    match mantissa {
        Some(j) => {
            if char_at(s, j, 'e') || char_at(s, j, 'E') {
                let k = if char_at(s, j + 1, '+') || char_at(s, j + 1, '-') {
                    j + 2
                } else {
                    j + 1
                };
                let f = digits_until(s, k);
                if f > k {
                    Ok(f)
                } else {
                    Err(Failure::Abort)
                }
            } else {
                Ok(j)
            }
        },
        None => {
            if (at_no_case_exec(s, q, 'n', 'N') && at_no_case_exec(s, q + 1, 'a', 'A') && at_no_case_exec(s, q + 2, 'n', 'N')) || (at_no_case_exec(s, q, 'i', 'I') && at_no_case_exec(s, q + 1, 'n', 'N')
                && at_no_case_exec(s, q + 2, 'f', 'F')) {
                Ok(q + 3)
            } else {
                Err(Failure::Backtrack)
            }
        },
    }
}

proof fn lemma_digits_value_grows(t: Seq<char>, k: int)
    requires
        0 <= k <= t.len(),
        all_digits(t),
    ensures
        digits_value(t) >= digits_value(t.take(k)) >= 0,
    decreases t.len(),
{
    if t.len() > 0 {
        assert(all_digits(t.drop_last()));
        if k < t.len() {
            lemma_digits_value_grows(t.drop_last(), k);
            assert(t.drop_last().take(k) =~= t.take(k));
        } else {
            assert(t.take(k) =~= t);
            lemma_digits_value_grows(t.drop_last(), k - 1);
        }
    } else {
        assert(t.take(k) =~= t);
    }
}

/// Reads `s[a..b]` as a signed 64-bit integer.
pub fn int_of_span(s: &Vec<char>, a: usize, b: usize) -> (r: Option<i64>)
    requires
        a <= b <= s.len(),
    ensures
        match int_of_text(s@.subrange(a as int, b as int)) {
            Some(v) => r == Some(v as i64),
            None => r is None,
        },
{
    let ghost t = s@.subrange(a as int, b as int);
    let neg = a < b && s[a] == '-';
    let start = if a < b && (s[a] == '-' || s[a] == '+') {
        a + 1
    } else {
        a
    };
    let ghost body = s@.subrange(start as int, b as int);
    proof {
        if a < b && (s[a as int] == '-' || s[a as int] == '+') {
            assert(body =~= t.drop_first());
        } else {
            assert(body =~= t);
        }
        assert(int_of_text(t) == int_of_parts(neg, body));
    }
    if start == b {
        return None;
    }
    let mut acc: i64 = 0;
    let mut k = start;
    proof {
        assert(body.take(0) =~= Seq::<char>::empty());
    }
    while k < b
        invariant
            start <= k <= b <= s.len(),
            body == s@.subrange(start as int, b as int),
            int_of_text(s@.subrange(a as int, b as int)) == int_of_parts(neg, body),
            forall|j: int| start <= j < k ==> is_digit(#[trigger] s@[j]),
            acc as int == if neg {
                -digits_value(body.take(k - start))
            } else {
                digits_value(body.take(k - start))
            },
        decreases b - k,
    {
        let c = s[k];
        if !is_digit_char(c) {
            proof {
                assert(body[k - start] == c);
                assert(!is_digit(body[k - start]));
            }
            return None;
        }
        let d = (c as u32 - '0' as u32) as i64;
        let next: i128 = if neg {
            acc as i128 * 10 - d as i128
        } else {
            acc as i128 * 10 + d as i128
        };
        proof {
            assert(body.take(k - start + 1).drop_last() =~= body.take(k - start));
            assert(body.take(k - start + 1).last() == c);
        }
        if next < i64::MIN as i128 || next > i64::MAX as i128 {
            proof {
                if all_digits(body) {
                    lemma_digits_value_grows(body, k - start + 1);
                }
            }
            return None;
        }
        acc = next as i64;
        k = k + 1;
    }
    proof {
        assert(body.take(k - start) =~= body);
        assert(all_digits(body));
    }
    Some(acc)
}

/// Recognizes an integer at `p`.
pub fn int_token(s: &Vec<char>, p: usize) -> (r: Result<(i64, usize), Failure>)
    requires
        p <= s.len(),
    ensures
        match r {
            Ok((v, e)) => int_at(s@, p as int) == Ok::<(int, int), Failure>((v as int, e as int))
                && p < e <= s.len(),
            Err(f) => int_at(s@, p as int) == Err::<(int, int), Failure>(f),
        },
{
    let q = skip_whitespace(s, p);
    match numeral_until(s, q) {
        Ok(e) => match int_of_span(s, q, e) {
            Some(v) => Ok((v, e)),
            None => Err(Failure::Backtrack),
        },
        Err(f) => Err(f),
    }
}

/// Recognizes a float at `p`.
pub fn float_token(s: &Vec<char>, p: usize) -> (r: Span)
    requires
        p <= s.len(),
    ensures
        span_view(s@, r) == float_at(s@, p as int),
        span_ok(s@, p as int, r),
{
    let q = skip_whitespace(s, p);
    if at_no_case_exec(s, q, 'n', 'N') && at_no_case_exec(s, q + 1, 'a', 'A') && at_no_case_exec(
        s,
        q + 2,
        'n',
        'N',
    ) {
        return Err(Failure::Backtrack);
    }
    match numeral_until(s, q) {
        Ok(e) => Ok((q, e, e)),
        Err(f) => Err(f),
    }
}

/// Recognizes a quoted string at `p`; its text is the raw contents.
pub fn str_token(s: &Vec<char>, p: usize) -> (r: Span)
    requires
        p <= s.len(),
    ensures
        span_view(s@, r) == str_at(s@, p as int),
        span_ok(s@, p as int, r),
{
    let q = skip_whitespace(s, p);
    if !char_at(s, q, '"') {
        return Err(Failure::Backtrack);
    }
    let mut i = q + 1;
    while i < s.len() && s[i] != '"'
        invariant
            q < i <= s.len(),
            q as int == skip_ws(s@, p as int),
            at(s@, q as int, '"'),
            str_close(s@, q + 1) == str_close(s@, i as int),
        decreases s.len() - i,
    {
        if s[i] == '\\' {
            if i + 1 >= s.len() {
                assert(str_close(s@, i as int) == Err::<int, Failure>(Failure::Abort));
                return Err(Failure::Abort);
            } else if s[i + 1] == '"' || s[i + 1] == '\\' {
                i = i + 2;
            } else {
                assert(str_close(s@, i as int) == Err::<int, Failure>(Failure::Backtrack));
                return Err(Failure::Backtrack);
            }
        } else {
            i = i + 1;
        }
    }
    if i >= s.len() {
        return Err(Failure::Abort);
    }
    Ok((q + 1, i, i + 1))
}

/// Recognizes an unquoted identifier at `p`.
pub fn unquoted_token(s: &Vec<char>, p: usize) -> (r: Span)
    requires
        p <= s.len(),
    ensures
        span_view(s@, r) == unquoted_at(s@, p as int),
        span_ok(s@, p as int, r),
{
    let q = skip_whitespace(s, p);
    let e = ident_until(s, q);
    if e > q {
        Ok((q, e, e))
    } else {
        Err(Failure::Backtrack)
    }
}

/// A colour literal: the spans of its space and of its three components, and
/// the position after it.
pub type ColorSpans = Result<((usize, usize), (usize, usize), (usize, usize), (usize, usize), usize), Failure>;

pub open spec fn color_view(s: Seq<char>, r: ColorSpans) -> Parsed<Node> {
    match r {
        Ok((k, a, b, c, n)) => Ok((Node::Color(
            s.subrange(k.0 as int, k.1 as int),
            s.subrange(a.0 as int, a.1 as int),
            s.subrange(b.0 as int, b.1 as int),
            s.subrange(c.0 as int, c.1 as int),
        ), n as int)),
        Err(f) => Err(f),
    }
}

pub open spec fn color_spans_ok(s: Seq<char>, p: int, r: ColorSpans) -> bool {
    r matches Ok((k, a, b, c, n)) ==> k.0 <= k.1 <= s.len() && a.0 <= a.1 <= s.len() && b.0 <= b.1
        <= s.len() && c.0 <= c.1 <= s.len() && p < n <= s.len()
}

/// Recognizes a colour literal at `p`.
pub fn color_token(s: &Vec<char>, p: usize) -> (r: ColorSpans)
    requires
        p <= s.len(),
    ensures
        color_view(s@, r) == color_at(s@, p as int),
        color_spans_ok(s@, p as int, r),
{
    let q = skip_whitespace(s, p);
    let space = (char_at(s, q, 'r') && char_at(s, q + 1, 'g') && char_at(s, q + 2, 'b')) || (
    char_at(s, q, 'h') && char_at(s, q + 1, 's') && char_at(s, q + 2, 'v'));
    if !space {
        return Err(Failure::Backtrack);
    }
    let r = skip_whitespace(s, q + 3);
    if !char_at(s, r, '{') {
        return Err(Failure::Backtrack);
    }
    let (a0, a1, e1) = match float_token(s, r + 1) {
        Ok(x) => x,
        Err(f) => return Err(f),
    };
    let (b0, b1, e2) = match float_token(s, e1) {
        Ok(x) => x,
        Err(f) => return Err(f),
    };
    let (c0, c1, e3) = match float_token(s, e2) {
        Ok(x) => x,
        Err(f) => return Err(f),
    };
    let t = skip_whitespace(s, e3);
    if char_at(s, t, '}') {
        Ok(((q, q + 3), (a0, a1), (b0, b1), (c0, c1), t + 1))
    } else {
        Err(Failure::Backtrack)
    }
}

} // verus!
