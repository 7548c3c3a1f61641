//! The grammar of a document, as spec functions over the characters
//! of the input and positions in it.
//!
//! Each rule at position `p` gives `Ok((result, end))`, where `end` is the
//! position after what it consumed, or `Err(failure)`. An alternation tries its
//! rules in order; it goes on to the next one only after `Failure::Backtrack`.
use vstd::prelude::*;
use crate::value::{Failure, Node};
use crate::folding::fold_map;

verus! {

/// A text together with the position that follows it.
pub type Parsed<T> = Result<(T, int), Failure>;

pub open spec fn is_ws(c: char) -> bool {
    c == ' ' || c == '\t' || c == '\n' || c == '\r'
}

pub open spec fn is_digit(c: char) -> bool {
    '0' <= c <= '9'
}

/// A character that may stand in an unquoted identifier.
pub open spec fn is_ident_char(c: char) -> bool {
    !is_ws(c) && c != '"' && c != '=' && c != '{' && c != '}' && c != '<' && c != '>' && c
        != '[' && c != ']' && c != '#' && c != '$' && c != '|'
}

/// `s` holds the character `c` at position `i`.
pub open spec fn at(s: Seq<char>, i: int, c: char) -> bool {
    0 <= i < s.len() && s[i] == c
}

/// `s` holds a letter, as `lower` or as `upper`, at position `i`.
pub open spec fn at_no_case(s: Seq<char>, i: int, lower: char, upper: char) -> bool {
    at(s, i, lower) || at(s, i, upper)
}

/// The end of the run of whitespace that starts at `i`.
pub open spec fn skip_ws(s: Seq<char>, i: int) -> int
    decreases s.len() - i,
{
    if 0 <= i < s.len() && is_ws(s[i]) {
        skip_ws(s, i + 1)
    } else {
        i
    }
}

/// The end of the run of decimal digits that starts at `i`.
pub open spec fn digits_end(s: Seq<char>, i: int) -> int
    decreases s.len() - i,
{
    if 0 <= i < s.len() && is_digit(s[i]) {
        digits_end(s, i + 1)
    } else {
        i
    }
}

/// The end of the run of identifier characters that starts at `i`.
pub open spec fn ident_end(s: Seq<char>, i: int) -> int
    decreases s.len() - i,
{
    if 0 <= i < s.len() && is_ident_char(s[i]) {
        ident_end(s, i + 1)
    } else {
        i
    }
}

/// Rule progress: a rule that starts at `from` and ends at `to` consumed input.
pub open spec fn advances(s: Seq<char>, from: int, to: int) -> bool {
    from < to <= s.len()
}

/// A date after whitespace: three runs of digits, each possibly empty,
/// joined by two dots. The result is the text of the date.
pub open spec fn date_at(s: Seq<char>, p: int) -> Parsed<Seq<char>> {
    let q = skip_ws(s, p);
    let a = digits_end(s, q);
    if at(s, a, '.') {
        let b = digits_end(s, a + 1);
        if at(s, b, '.') {
            let c = digits_end(s, b + 1);
            Ok((s.subrange(q, c), c))
        } else {
            Err(Failure::Backtrack)
        }
    } else {
        Err(Failure::Backtrack)
    }
}

/// The end of the mantissa of a decimal numeral at `i` (after any sign):
/// digits with an optional fraction, or a dot and digits.
pub open spec fn mantissa_end(s: Seq<char>, i: int) -> Option<int> {
    let d = digits_end(s, i);
    if d > i {
        if at(s, d, '.') {
            Some(digits_end(s, d + 1))
        } else {
            Some(d)
        }
    } else if at(s, i, '.') && digits_end(s, i + 1) > i + 1 {
        Some(digits_end(s, i + 1))
    } else {
        None
    }
}

/// The end of a numeric token at `q`: a decimal numeral with optional sign
/// and exponent, or else one of the words `nan` and `inf` in any case.
/// An exponent marker that no digits follow makes the input unreadable.
pub open spec fn numeral_end(s: Seq<char>, q: int) -> Result<int, Failure> {
    let i = if at(s, q, '+') || at(s, q, '-') {
        q + 1
    } else {
        q
    };
    match mantissa_end(s, i) {
        Some(j) => if at(s, j, 'e') || at(s, j, 'E') {
            let k = if at(s, j + 1, '+') || at(s, j + 1, '-') {
                j + 2
            } else {
                j + 1
            };
            if digits_end(s, k) > k {
                Ok(digits_end(s, k))
            } else {
                Err(Failure::Abort)
            }
        } else {
            Ok(j)
        },
        None => if (at_no_case(s, q, 'n', 'N') && at_no_case(s, q + 1, 'a', 'A') && at_no_case(s, q + 2, 'n', 'N')) || (at_no_case(s, q, 'i', 'I') && at_no_case(s, q + 1, 'n', 'N') && at_no_case(s, q + 2, 'f', 'F')) {
            Ok(q + 3)
        } else {
            Err(Failure::Backtrack)
        },
    }
}

/// The number that a run of decimal digits denotes.
pub open spec fn digits_value(t: Seq<char>) -> int
    decreases t.len(),
{
    if t.len() == 0 {
        0
    } else {
        digits_value(t.drop_last()) * 10 + (t.last() as int - '0' as int)
    }
}

pub open spec fn all_digits(t: Seq<char>) -> bool {
    forall|i: int| 0 <= i < t.len() ==> is_digit(#[trigger] t[i])
}

/// The number that an optional minus and a run of digits denote, if the run
/// is not empty, holds digits only and the number fits in 64 signed bits.
pub open spec fn int_of_parts(neg: bool, body: Seq<char>) -> Option<int> {
    let v = if neg {
        -digits_value(body)
    } else {
        digits_value(body)
    };
    if body.len() > 0 && all_digits(body) && i64::MIN <= v <= i64::MAX {
        Some(v)
    } else {
        None
    }
}

/// The number that a text denotes as a signed 64-bit integer: an optional `+`
/// or `-` and one or more decimal digits, within range; `None` otherwise.
pub open spec fn int_of_text(t: Seq<char>) -> Option<int> {
    if t.len() > 0 && (t[0] == '-' || t[0] == '+') {
        int_of_parts(t[0] == '-', t.drop_first())
    } else {
        int_of_parts(false, t)
    }
}

/// An integer: a numeric token, after whitespace, that reads as an integer.
pub open spec fn int_at(s: Seq<char>, p: int) -> Parsed<int> {
    let q = skip_ws(s, p);
    match numeral_end(s, q) {
        Ok(e) => match int_of_text(s.subrange(q, e)) {
            Some(v) => Ok((v, e)),
            None => Err(Failure::Backtrack),
        },
        Err(f) => Err(f),
    }
}

/// `s` holds the word `nan`, in any case, at position `q`.
pub open spec fn nan_at(s: Seq<char>, q: int) -> bool {
    at_no_case(s, q, 'n', 'N') && at_no_case(s, q + 1, 'a', 'A') && at_no_case(s, q + 2, 'n', 'N')
}

/// A float: a numeric token after whitespace that does not begin with the
/// word `nan` in any case, so that no float denotes NaN.
/// The result is the text of the token.
pub open spec fn float_at(s: Seq<char>, p: int) -> Parsed<Seq<char>> {
    let q = skip_ws(s, p);
    if nan_at(s, q) {
        Err(Failure::Backtrack)
    } else {
        match numeral_end(s, q) {
            Ok(e) => Ok((s.subrange(q, e), e)),
            Err(f) => Err(f),
        }
    }
}

/// The position of the closing quote of a string whose contents start at `i`.
/// A backslash escapes a quote or a backslash; before anything else it makes
/// the string no string. Input that ends inside the string is unreadable.
pub open spec fn str_close(s: Seq<char>, i: int) -> Result<int, Failure>
    decreases s.len() - i,
{
    if i < 0 || i >= s.len() {
        Err(Failure::Abort)
    } else if s[i] == '"' {
        Ok(i)
    } else if s[i] == '\\' {
        if i + 1 >= s.len() {
            Err(Failure::Abort)
        } else if s[i + 1] == '"' || s[i + 1] == '\\' {
            str_close(s, i + 2)
        } else {
            Err(Failure::Backtrack)
        }
    } else {
        str_close(s, i + 1)
    }
}

/// A quoted string after whitespace. The result is the raw text between the
/// quotes, escapes left as they are.
pub open spec fn str_at(s: Seq<char>, p: int) -> Parsed<Seq<char>> {
    let q = skip_ws(s, p);
    if at(s, q, '"') {
        match str_close(s, q + 1) {
            Ok(e) => Ok((s.subrange(q + 1, e), e + 1)),
            Err(f) => Err(f),
        }
    } else {
        Err(Failure::Backtrack)
    }
}

/// An unquoted identifier after whitespace.
pub open spec fn unquoted_at(s: Seq<char>, p: int) -> Parsed<Seq<char>> {
    let q = skip_ws(s, p);
    let e = ident_end(s, q);
    if e > q {
        Ok((s.subrange(q, e), e))
    } else {
        Err(Failure::Backtrack)
    }
}

/// `s` holds the word `rgb` or `hsv` at position `q`.
pub open spec fn color_space_at(s: Seq<char>, q: int) -> bool {
    (at(s, q, 'r') && at(s, q + 1, 'g') && at(s, q + 2, 'b')) || (at(s, q, 'h') && at(
        s,
        q + 1,
        's',
    ) && at(s, q + 2, 'v'))
}

/// A colour literal: `rgb` or `hsv`, `{`, three floats and `}`.
pub open spec fn color_at(s: Seq<char>, p: int) -> Parsed<Node> {
    let q = skip_ws(s, p);
    let r = skip_ws(s, q + 3);
    if !color_space_at(s, q) || !at(s, r, '{') {
        Err(Failure::Backtrack)
    } else {
        match float_at(s, r + 1) {
            Err(f) => Err(f),
            Ok((a, e1)) => match float_at(s, e1) {
                Err(f) => Err(f),
                Ok((b, e2)) => match float_at(s, e2) {
                    Err(f) => Err(f),
                    Ok((c, e3)) => {
                        let t = skip_ws(s, e3);
                        if at(s, t, '}') {
                            Ok((Node::Color(s.subrange(q, q + 3), a, b, c), t + 1))
                        } else {
                            Err(Failure::Backtrack)
                        }
                    },
                },
            },
        }
    }
}

/// The separator between a key and its value: `=` with optional whitespace
/// around it. The result is the position after it.
pub open spec fn sep_at(s: Seq<char>, i: int) -> Option<int> {
    let w = skip_ws(s, i);
    if at(s, w, '=') {
        Some(skip_ws(s, w + 1))
    } else {
        None
    }
}

/// The leaf rules of the value alternation, in their order: date, integer,
/// float, quoted string, colour, unquoted identifier.
pub open spec fn leaf_at(s: Seq<char>, p: int) -> Parsed<Node> {
    match date_at(s, p) {
        Ok((t, e)) => Ok((Node::Str(t), e)),
        Err(Failure::Abort) => Err(Failure::Abort),
        Err(Failure::Backtrack) => match int_at(s, p) {
            Ok((v, e)) => Ok((Node::Int(v), e)),
            Err(Failure::Abort) => Err(Failure::Abort),
            Err(Failure::Backtrack) => match float_at(s, p) {
                Ok((t, e)) => Ok((Node::Float(t), e)),
                Err(Failure::Abort) => Err(Failure::Abort),
                Err(Failure::Backtrack) => match str_at(s, p) {
                    Ok((t, e)) => Ok((Node::Str(t), e)),
                    Err(Failure::Abort) => Err(Failure::Abort),
                    Err(Failure::Backtrack) => match color_at(s, p) {
                        Err(Failure::Backtrack) => match unquoted_at(s, p) {
                            Ok((t, e)) => Ok((Node::Str(t), e)),
                            Err(f) => Err(f),
                        },
                        other => other,
                    },
                },
            },
        },
    }
}

/// A value: a leaf, else a list, else a map.
pub open spec fn value_at(s: Seq<char>, p: int) -> Parsed<Node>
    decreases s.len() - p, 3int,
{
    match leaf_at(s, p) {
        Err(Failure::Backtrack) => match list_at(s, p) {
            Err(Failure::Backtrack) => map_at(s, p),
            other => other,
        },
        other => other,
    }
}

/// A list: `{` directly at `p`, values separated by whitespace, `}`.
pub open spec fn list_at(s: Seq<char>, p: int) -> Parsed<Node>
    decreases s.len() - p, 2int,
{
    if at(s, p, '{') {
        match list_items(s, p + 1) {
            Ok((items, e)) => {
                let r = skip_ws(s, e);
                if at(s, r, '}') {
                    Ok((Node::List(items), r + 1))
                } else {
                    Err(Failure::Backtrack)
                }
            },
            Err(f) => Err(f),
        }
    } else {
        Err(Failure::Backtrack)
    }
}

/// The values of a list, after whitespace at `i`; none if no value is there.
pub open spec fn list_items(s: Seq<char>, i: int) -> Parsed<Seq<Node>>
    decreases s.len() - i, 4int,
{
    let q = skip_ws(s, i);
    proof {
        lemma_skip_ws(s, i);
    }
    match value_at(s, q) {
        Err(Failure::Backtrack) => Ok((Seq::empty(), q)),
        Err(Failure::Abort) => Err(Failure::Abort),
        Ok((v, e)) => if advances(s, q, e) {
            more_items(s, e, seq![v])
        } else {
            Err(Failure::Abort)
        },
    }
}

/// Further values of a list after `acc`, each after at least one whitespace
/// character; the list ends at `i` where none follows.
pub open spec fn more_items(s: Seq<char>, i: int, acc: Seq<Node>) -> Parsed<Seq<Node>>
    decreases s.len() - i, 4int,
{
    let w = skip_ws(s, i);
    proof {
        lemma_skip_ws(s, i);
    }
    if w <= i {
        Ok((acc, i))
    } else {
        match value_at(s, w) {
            Err(Failure::Backtrack) => Ok((acc, i)),
            Err(Failure::Abort) => Err(Failure::Abort),
            Ok((v, e)) => if advances(s, w, e) {
                more_items(s, e, acc.push(v))
            } else {
                Err(Failure::Abort)
            },
        }
    }
}

/// A map: whitespace, `{`, a map body, whitespace, `}`.
pub open spec fn map_at(s: Seq<char>, p: int) -> Parsed<Node>
    decreases s.len() - p, 2int,
{
    let q = skip_ws(s, p);
    proof {
        lemma_skip_ws(s, p);
    }
    if at(s, q, '{') {
        match pairs_at(s, q + 1) {
            Ok((kvs, e)) => {
                let r = skip_ws(s, e);
                if at(s, r, '}') {
                    Ok((Node::Dict(fold_map(kvs)), r + 1))
                } else {
                    Err(Failure::Backtrack)
                }
            },
            Err(f) => Err(f),
        }
    } else {
        Err(Failure::Backtrack)
    }
}

/// The key/value pairs of a map body: one or more pairs separated by
/// whitespace, with whitespace before and after, in the order written.
pub open spec fn pairs_at(s: Seq<char>, i: int) -> Parsed<Seq<(Seq<char>, Node)>>
    decreases s.len() - i, 5int,
{
    let q = skip_ws(s, i);
    proof {
        lemma_skip_ws(s, i);
    }
    match pair_at(s, q) {
        Err(f) => Err(f),
        Ok((kv, e)) => if advances(s, q, e) {
            match more_pairs(s, e, seq![kv]) {
                Ok((kvs, f)) => Ok((kvs, skip_ws(s, f))),
                Err(x) => Err(x),
            }
        } else {
            Err(Failure::Abort)
        },
    }
}

/// Further pairs of a map body after `acc`, each after at least one
/// whitespace character.
pub open spec fn more_pairs(s: Seq<char>, i: int, acc: Seq<(Seq<char>, Node)>) -> Parsed<
    Seq<(Seq<char>, Node)>,
>
    decreases s.len() - i, 5int,
{
    let w = skip_ws(s, i);
    proof {
        lemma_skip_ws(s, i);
    }
    if w <= i {
        Ok((acc, i))
    } else {
        match pair_at(s, w) {
            Err(Failure::Backtrack) => Ok((acc, i)),
            Err(Failure::Abort) => Err(Failure::Abort),
            Ok((kv, e)) => if advances(s, w, e) {
                more_pairs(s, e, acc.push(kv))
            } else {
                Err(Failure::Abort)
            },
        }
    }
}

/// A key: a quoted string, else an unquoted identifier.
pub open spec fn key_at(s: Seq<char>, q: int) -> Parsed<Seq<char>> {
    match str_at(s, q) {
        Err(Failure::Backtrack) => unquoted_at(s, q),
        other => other,
    }
}

/// A key/value pair: a key, the separator, and a value. Where an unquoted
/// identifier and a second separator come before the value, that identifier
/// is dropped and the value belongs to the first key.
pub open spec fn pair_at(s: Seq<char>, q: int) -> Parsed<(Seq<char>, Node)>
    decreases s.len() - q, 4int,
{
    match key_at(s, q) {
        Err(f) => Err(f),
        Ok((k, e1)) => match sep_at(s, e1) {
            None => Err(Failure::Backtrack),
            Some(e2) => {
                proof {
                    lemma_key_at(s, q);
                    lemma_sep_at(s, e1);
                    lemma_unquoted_at(s, e2);
                }
                let skipped = match unquoted_at(s, e2) {
                    Ok((_, e3)) => match sep_at(s, e3) {
                        Some(e4) => {
                            proof {
                                lemma_sep_at(s, e3);
                            }
                            value_at(s, e4)
                        },
                        None => Err(Failure::Backtrack),
                    },
                    Err(f) => Err(f),
                };
                let rhs = match skipped {
                    Err(Failure::Backtrack) => value_at(s, e2),
                    other => other,
                };
                match rhs {
                    Ok((v, e)) => Ok(((k, v), e)),
                    Err(f) => Err(f),
                }
            },
        },
    }
}

/// Every character from `e` to the end of `s` is whitespace.
pub open spec fn rest_is_ws(s: Seq<char>, e: int) -> bool {
    forall|i: int| e <= i < s.len() ==> is_ws(#[trigger] s[i])
}

/// How a whole document fails.
pub enum DocFailure {
    /// No map body at the start of the input.
    NoBody,
    /// A map body was read, but non-whitespace input follows it from this position.
    Trailing(int),
}

/// A whole document: a map body, then only whitespace to the end.
pub open spec fn document(s: Seq<char>) -> Result<Node, DocFailure> {
    match pairs_at(s, 0) {
        Ok((kvs, e)) => if rest_is_ws(s, e) {
            Ok(Node::Dict(fold_map(kvs)))
        } else {
            Err(DocFailure::Trailing(e))
        },
        Err(_) => Err(DocFailure::NoBody),
    }
}

pub proof fn lemma_skip_ws(s: Seq<char>, i: int)
    ensures
        skip_ws(s, i) >= i,
        skip_ws(s, i) > i ==> skip_ws(s, i) <= s.len(),
        0 <= i <= s.len() ==> skip_ws(s, i) <= s.len(),
        0 <= skip_ws(s, i) < s.len() ==> !is_ws(s[skip_ws(s, i)]),
    decreases s.len() - i,
{
    if 0 <= i < s.len() && is_ws(s[i]) {
        lemma_skip_ws(s, i + 1);
    }
}

pub proof fn lemma_digits_end(s: Seq<char>, i: int)
    ensures
        digits_end(s, i) >= i,
        digits_end(s, i) > i ==> 0 <= i && digits_end(s, i) <= s.len(),
    decreases s.len() - i,
{
    if 0 <= i < s.len() && is_digit(s[i]) {
        lemma_digits_end(s, i + 1);
    }
}

/// A numeric token lies within the input.
pub proof fn lemma_numeral_end(s: Seq<char>, q: int)
    ensures
        numeral_end(s, q) matches Ok(e) ==> 0 <= q < e <= s.len(),
{
    let i = if at(s, q, '+') || at(s, q, '-') {
        q + 1
    } else {
        q
    };
    let d = digits_end(s, i);
    lemma_digits_end(s, i);
    lemma_digits_end(s, d + 1);
    lemma_digits_end(s, i + 1);
    if let Some(j) = mantissa_end(s, i) {
        lemma_digits_end(s, j + 1);
        lemma_digits_end(s, j + 2);
    }
}

pub proof fn lemma_ident_end(s: Seq<char>, i: int)
    ensures
        ident_end(s, i) >= i,
        ident_end(s, i) > i ==> ident_end(s, i) <= s.len(),
        0 <= i <= s.len() ==> ident_end(s, i) <= s.len(),
    decreases s.len() - i,
{
    if 0 <= i < s.len() && is_ident_char(s[i]) {
        lemma_ident_end(s, i + 1);
    }
}

pub proof fn lemma_str_close(s: Seq<char>, i: int)
    ensures
        str_close(s, i) matches Ok(e) ==> i <= e < s.len(),
    decreases s.len() - i,
{
    if 0 <= i < s.len() && s[i] != '"' {
        if s[i] == '\\' {
            if i + 1 < s.len() && (s[i + 1] == '"' || s[i + 1] == '\\') {
                lemma_str_close(s, i + 2);
            }
        } else {
            lemma_str_close(s, i + 1);
        }
    }
}

pub proof fn lemma_unquoted_at(s: Seq<char>, p: int)
    ensures
        unquoted_at(s, p) matches Ok((_, e)) ==> p < e <= s.len(),
{
    lemma_skip_ws(s, p);
    lemma_ident_end(s, skip_ws(s, p));
}

pub proof fn lemma_str_at(s: Seq<char>, p: int)
    ensures
        str_at(s, p) matches Ok((_, e)) ==> p < e <= s.len(),
{
    lemma_skip_ws(s, p);
    lemma_str_close(s, skip_ws(s, p) + 1);
}

pub proof fn lemma_key_at(s: Seq<char>, p: int)
    ensures
        key_at(s, p) matches Ok((_, e)) ==> p < e <= s.len(),
{
    lemma_str_at(s, p);
    lemma_unquoted_at(s, p);
}

pub proof fn lemma_sep_at(s: Seq<char>, i: int)
    ensures
        sep_at(s, i) matches Some(e) ==> i < e && (0 <= i ==> e <= s.len()),
{
    lemma_skip_ws(s, i);
    lemma_skip_ws(s, skip_ws(s, i) + 1);
}

} // verus!
