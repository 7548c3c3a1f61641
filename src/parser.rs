//! The executable parser. Each function is proved to give exactly what the
//! rule of the same name in [`crate::grammar`] gives.
use vstd::prelude::*;
use crate::folding::fold_entries;
use crate::grammar::{
    document, key_at, leaf_at, list_at, list_items, map_at, more_items, more_pairs,
    pair_at, pairs_at, sep_at, skip_ws, value_at, DocFailure, Parsed,
};
use crate::lexer::{
    char_at, chars_of, color_token, date_token, float_token, int_token, is_ws_char,
    skip_whitespace, str_token, text_of, unquoted_token,
};
use crate::value::{
    entries_of, lemma_list_view, lemma_map_view, nodes_of, Failure, Node, Value,
};

verus! {

/// The model of a parsed value and the position after it.
pub open spec fn outcome(r: Result<(Value, usize), Failure>) -> Parsed<Node> {
    match r {
        Ok((v, e)) => Ok((v@, e as int)),
        Err(f) => Err(f),
    }
}

/// `r` ends within `s`, after `p`.
pub open spec fn ends_after(s: Seq<char>, p: int, r: Result<(Value, usize), Failure>) -> bool {
    r matches Ok((_, e)) ==> p < e <= s.len()
}

/// The leaf alternatives of a value at `p`.
fn leaf_here(s: &Vec<char>, p: usize) -> (r: Result<(Value, usize), Failure>)
    requires
        p <= s.len(),
    ensures
        outcome(r) == leaf_at(s@, p as int),
        ends_after(s@, p as int, r),
{
    match date_token(s, p) {
        Ok((a, b, n)) => return Ok((Value::Str(text_of(s, a, b)), n)),
        Err(Failure::Abort) => return Err(Failure::Abort),
        Err(Failure::Backtrack) => {},
    }
    match int_token(s, p) {
        Ok((v, e)) => return Ok((Value::Int(v), e)),
        Err(Failure::Abort) => return Err(Failure::Abort),
        Err(Failure::Backtrack) => {},
    }
    match float_token(s, p) {
        Ok((a, b, n)) => return Ok((Value::Float(text_of(s, a, b)), n)),
        Err(Failure::Abort) => return Err(Failure::Abort),
        Err(Failure::Backtrack) => {},
    }
    match str_token(s, p) {
        Ok((a, b, n)) => return Ok((Value::Str(text_of(s, a, b)), n)),
        Err(Failure::Abort) => return Err(Failure::Abort),
        Err(Failure::Backtrack) => {},
    }
    match color_token(s, p) {
        Ok((k, a, b, c, n)) => {
            let v = Value::Color(
                text_of(s, k.0, k.1),
                text_of(s, a.0, a.1),
                text_of(s, b.0, b.1),
                text_of(s, c.0, c.1),
            );
            return Ok((v, n));
        },
        Err(Failure::Abort) => return Err(Failure::Abort),
        Err(Failure::Backtrack) => {},
    }
    match unquoted_token(s, p) {
        Ok((a, b, n)) => Ok((Value::Str(text_of(s, a, b)), n)),
        Err(f) => Err(f),
    }
}

/// Parses a value at `p`.
pub fn value_here(s: &Vec<char>, p: usize) -> (r: Result<(Value, usize), Failure>)
    requires
        p <= s.len(),
    ensures
        outcome(r) == value_at(s@, p as int),
        ends_after(s@, p as int, r),
    decreases s.len() - p, 3int,
{
    match leaf_here(s, p) {
        Err(Failure::Backtrack) => {},
        other => return other,
    }
    match list_here(s, p) {
        Err(Failure::Backtrack) => {},
        other => return other,
    }
    map_here(s, p)
}

/// Parses a list at `p`.
fn list_here(s: &Vec<char>, p: usize) -> (r: Result<(Value, usize), Failure>)
    requires
        p <= s.len(),
    ensures
        outcome(r) == list_at(s@, p as int),
        ends_after(s@, p as int, r),
    decreases s.len() - p, 2int,
{
    if !char_at(s, p, '{') {
        return Err(Failure::Backtrack);
    }
    match list_items_here(s, p + 1) {
        Ok((items, e)) => {
            let r = skip_whitespace(s, e);
            if char_at(s, r, '}') {
                proof {
                    lemma_list_view(items);
                }
                Ok((Value::List(items), r + 1))
            } else {
                Err(Failure::Backtrack)
            }
        },
        Err(f) => Err(f),
    }
}

/// Parses the values of a list after whitespace at `i`.
fn list_items_here(s: &Vec<char>, i: usize) -> (r: Result<(Vec<Value>, usize), Failure>)
    requires
        i <= s.len(),
    ensures
        match r {
            Ok((items, e)) => list_items(s@, i as int) == Ok::<(Seq<Node>, int), Failure>(
                (nodes_of(items@), e as int),
            ) && i <= e <= s.len(),
            Err(f) => list_items(s@, i as int) == Err::<(Seq<Node>, int), Failure>(f),
        },
    decreases s.len() - i, 4int,
{
    let q = skip_whitespace(s, i);
    let (first, mut j) = match value_here(s, q) {
        Err(Failure::Backtrack) => {
            proof {
                assert(nodes_of(Seq::<Value>::empty()) =~= Seq::<Node>::empty());
            }
            return Ok((Vec::new(), q));
        },
        Err(Failure::Abort) => return Err(Failure::Abort),
        Ok(x) => x,
    };
    let mut items: Vec<Value> = Vec::new();
    items.push(first);
    proof {
        assert(nodes_of(items@) =~= seq![first@]);
    }
    loop
        invariant
            i <= q < j <= s.len(),
            list_items(s@, i as int) == more_items(s@, j as int, nodes_of(items@)),
        decreases s.len() - j,
    {
        let w = skip_whitespace(s, j);
        if w <= j {
            return Ok((items, j));
        }
        match value_here(s, w) {
            Err(Failure::Backtrack) => return Ok((items, j)),
            Err(Failure::Abort) => return Err(Failure::Abort),
            Ok((v, e)) => {
                let ghost before = nodes_of(items@);
                items.push(v);
                proof {
                    assert(nodes_of(items@) =~= before.push(v@));
                }
                j = e;
            },
        }
    }
}

/// Parses a map at `p`.
fn map_here(s: &Vec<char>, p: usize) -> (r: Result<(Value, usize), Failure>)
    requires
        p <= s.len(),
    ensures
        outcome(r) == map_at(s@, p as int),
        ends_after(s@, p as int, r),
    decreases s.len() - p, 2int,
{
    let q = skip_whitespace(s, p);
    if !char_at(s, q, '{') {
        return Err(Failure::Backtrack);
    }
    match pairs_here(s, q + 1) {
        Ok((kvs, e)) => {
            let r = skip_whitespace(s, e);
            if char_at(s, r, '}') {
                let entries = fold_entries(kvs);
                proof {
                    lemma_map_view(entries);
                }
                Ok((Value::Dict(entries), r + 1))
            } else {
                Err(Failure::Backtrack)
            }
        },
        Err(f) => Err(f),
    }
}

/// The model of a parsed key/value pair and the position after it.
pub open spec fn pair_outcome(r: Result<((String, Value), usize), Failure>) -> Parsed<
    (Seq<char>, Node),
> {
    match r {
        Ok((kv, e)) => Ok(((kv.0@, kv.1@), e as int)),
        Err(f) => Err(f),
    }
}

/// Parses a key at `q`: a quoted string, else an unquoted identifier.
fn key_here(s: &Vec<char>, q: usize) -> (r: Result<(String, usize), Failure>)
    requires
        q <= s.len(),
    ensures
        match r {
            Ok((k, e)) => key_at(s@, q as int) == Ok::<(Seq<char>, int), Failure>(
                (k@, e as int),
            ) && q < e <= s.len(),
            Err(f) => key_at(s@, q as int) == Err::<(Seq<char>, int), Failure>(f),
        },
{
    let span = match str_token(s, q) {
        Err(Failure::Backtrack) => unquoted_token(s, q),
        other => other,
    };
    match span {
        Ok((a, b, n)) => Ok((text_of(s, a, b), n)),
        Err(f) => Err(f),
    }
}

/// The position after a separator at `i`.
fn sep_here(s: &Vec<char>, i: usize) -> (r: Option<usize>)
    requires
        i <= s.len(),
    ensures
        match r {
            Some(e) => sep_at(s@, i as int) == Some(e as int) && i < e <= s.len(),
            None => sep_at(s@, i as int) is None,
        },
{
    let w = skip_whitespace(s, i);
    if char_at(s, w, '=') {
        Some(skip_whitespace(s, w + 1))
    } else {
        None
    }
}

/// Parses a key/value pair at `q`.
fn pair_here(s: &Vec<char>, q: usize) -> (r: Result<((String, Value), usize), Failure>)
    requires
        q <= s.len(),
    ensures
        pair_outcome(r) == pair_at(s@, q as int),
        r matches Ok((_, e)) ==> q < e <= s.len(),
    decreases s.len() - q, 4int,
{
    let (k, e1) = match key_here(s, q) {
        Ok(x) => x,
        Err(f) => return Err(f),
    };
    let e2 = match sep_here(s, e1) {
        Some(e) => e,
        None => return Err(Failure::Backtrack),
    };
    let skipped = match unquoted_token(s, e2) {
        Ok((_, _, e3)) => match sep_here(s, e3) {
            Some(e4) => value_here(s, e4),
            None => Err(Failure::Backtrack),
        },
        Err(f) => Err(f),
    };
    let rhs = match skipped {
        Err(Failure::Backtrack) => value_here(s, e2),
        other => other,
    };
    match rhs {
        Ok((v, e)) => Ok(((k, v), e)),
        Err(f) => Err(f),
    }
}

/// Parses the pairs of a map body at `i`, with the whitespace around them.
fn pairs_here(s: &Vec<char>, i: usize) -> (r: Result<(Vec<(String, Value)>, usize), Failure>)
    requires
        i <= s.len(),
    ensures
        match r {
            Ok((kvs, e)) => pairs_at(s@, i as int) == Ok::<(Seq<(Seq<char>, Node)>, int), Failure>(
                (entries_of(kvs@), e as int),
            ) && i < e <= s.len(),
            Err(f) => pairs_at(s@, i as int) == Err::<(Seq<(Seq<char>, Node)>, int), Failure>(f),
        },
    decreases s.len() - i, 5int,
{
    let q = skip_whitespace(s, i);
    let (first, mut j) = match pair_here(s, q) {
        Err(f) => return Err(f),
        Ok(x) => x,
    };
    let mut kvs: Vec<(String, Value)> = Vec::new();
    kvs.push(first);
    proof {
        assert(entries_of(kvs@) =~= seq![(first.0@, first.1@)]);
    }
    loop
        invariant
            i <= q < j <= s.len(),
            pairs_at(s@, i as int) == match more_pairs(s@, j as int, entries_of(kvs@)) {
                Ok((m, f)) => Ok((m, skip_ws(s@, f))),
                Err(x) => Err(x),
            },
        decreases s.len() - j,
    {
        let w = skip_whitespace(s, j);
        if w <= j {
            return Ok((kvs, w));
        }
        match pair_here(s, w) {
            Err(Failure::Backtrack) => return Ok((kvs, w)),
            Err(Failure::Abort) => return Err(Failure::Abort),
            Ok((kv, e)) => {
                let ghost before = entries_of(kvs@);
                let ghost kv_view = (kv.0@, kv.1@);
                kvs.push(kv);
                proof {
                    assert(entries_of(kvs@) =~= before.push(kv_view));
                }
                j = e;
            },
        }
    }
}

/// Parses one value at the start of `input`; gives the rest of the input and
/// the value.
pub fn parse_value(input: &str) -> (r: Result<(String, Value), Failure>)
    ensures
        match value_at(input@, 0) {
            Ok((n, e)) => r matches Ok((rest, v)) && v@ == n && rest@ == input@.subrange(
                e,
                input@.len() as int,
            ),
            Err(f) => r == Err::<(String, Value), Failure>(f),
        },
{
    let s = chars_of(input);
    match value_here(&s, 0) {
        Ok((v, e)) => Ok((text_of(&s, e, s.len()), v)),
        Err(f) => Err(f),
    }
}

/// Parses one key/value pair at the start of `input`; gives the rest of the
/// input and the pair.
pub fn parse_map_key_value_pair(input: &str) -> (r: Result<(String, (String, Value)), Failure>)
    ensures
        match pair_at(input@, 0) {
            Ok((kv, e)) => r matches Ok((rest, (k, v))) && k@ == kv.0 && v@ == kv.1 && rest@
                == input@.subrange(e, input@.len() as int),
            Err(f) => r == Err::<(String, (String, Value)), Failure>(f),
        },
{
    let s = chars_of(input);
    match pair_here(&s, 0) {
        Ok((kv, e)) => Ok((text_of(&s, e, s.len()), kv)),
        Err(f) => Err(f),
    }
}

/// Parses the key/value pairs of a map body at the start of `input`, in the
/// order written and before any folding; gives the rest of the input and the
/// pairs.
pub fn parse_map_kv_list(input: &str) -> (r: Result<(String, Vec<(String, Value)>), Failure>)
    ensures
        match pairs_at(input@, 0) {
            Ok((kvs, e)) => r matches Ok((rest, pairs)) && entries_of(pairs@) == kvs && rest@
                == input@.subrange(e, input@.len() as int),
            Err(f) => r == Err::<(String, Vec<(String, Value)>), Failure>(f),
        },
{
    let s = chars_of(input);
    match pairs_here(&s, 0) {
        Ok((kvs, e)) => Ok((text_of(&s, e, s.len()), kvs)),
        Err(f) => Err(f),
    }
}

/// The message of a document that has no map body at its start.
pub open spec fn no_body_message() -> Seq<char> {
    "Parsing failed"@
}

/// Parses a whole document: a map body, then only whitespace. On failure the
/// error is the input that follows the body, or a fixed message where no body
/// could be read.
pub fn parse_file(input: &str) -> (r: Result<Value, String>)
    ensures
        match document(input@) {
            Ok(n) => r matches Ok(v) && v@ == n,
            Err(DocFailure::Trailing(e)) => r matches Err(m) && m@ == input@.subrange(
                e,
                input@.len() as int,
            ),
            Err(DocFailure::NoBody) => r matches Err(m) && m@ == no_body_message(),
        },
{
    let s = chars_of(input);
    match pairs_here(&s, 0) {
        Ok((kvs, e)) => {
            let mut i = e;
            while i < s.len() && is_ws_char(s[i])
                invariant
                    e <= i <= s.len(),
                    forall|j: int| e <= j < i ==> crate::grammar::is_ws(#[trigger] s@[j]),
                decreases s.len() - i,
            {
                i = i + 1;
            }
            if i < s.len() {
                Err(text_of(&s, e, s.len()))
            } else {
                let entries = fold_entries(kvs);
                proof {
                    lemma_map_view(entries);
                }
                Ok(Value::Dict(entries))
            }
        },
        Err(_) => Err(String::from_str("Parsing failed")),
    }
}

/// Reads a map key as a signed 64-bit integer, as host dictionaries key
/// their numeric entries.
pub fn int_key(key: &str) -> (r: Option<i64>)
    ensures
        match crate::grammar::int_of_text(key@) {
            Some(v) => r == Some(v as i64),
            None => r is None,
        },
{
    let s = chars_of(key);
    proof {
        assert(s@.subrange(0, s@.len() as int) =~= key@);
    }
    crate::lexer::int_of_span(&s, 0, s.len())
}

} // verus!
