//! Properties of the grammar, proved over the rules that the parser
//! is proved to follow.
use vstd::prelude::*;
use crate::folding::{fold_map, fold_pairs, keys_unique, lemma_fold_pairs, lemma_find_key, find_key, Entry};
use crate::grammar::{
    advances, at, color_at, lemma_numeral_end, date_at, float_at, nan_at, document, ident_end, int_at, is_ws, key_at, leaf_at, lemma_key_at,
    lemma_sep_at, lemma_skip_ws, lemma_unquoted_at, list_at, list_items, map_at, more_items,
    more_pairs, pair_at, pairs_at, sep_at, skip_ws, str_at, unquoted_at, value_at,
};
use crate::value::{Failure, Node};

verus! {

/// The space of a colour is `rgb` or `hsv`.
pub open spec fn color_space_ok(t: Seq<char>) -> bool {
    t == seq!['r', 'g', 'b'] || t == seq!['h', 's', 'v']
}

/// A float's text is not the word `nan` in any case, so it does not denote NaN.
pub open spec fn float_text_ok(t: Seq<char>) -> bool {
    !nan_at(t, 0)
}

/// At every depth of the tree: maps have unique keys, colours are in the
/// space `rgb` or `hsv`, and no float or colour component denotes NaN.
pub open spec fn well_formed(n: Node) -> bool
    decreases n,
{
    match n {
        Node::Float(t) => float_text_ok(t),
        Node::Color(space, a, b, c) => color_space_ok(space) && float_text_ok(a) && float_text_ok(b)
            && float_text_ok(c),
        Node::List(items) => forall|i: int| 0 <= i < items.len() ==> well_formed(#[trigger] items[i]),
        Node::Dict(m) => keys_unique(m) && forall|i: int|
            0 <= i < m.len() ==> well_formed(#[trigger] m[i].1),
        _ => true,
    }
}

pub open spec fn all_ok(items: Seq<Node>) -> bool {
    forall|i: int| 0 <= i < items.len() ==> well_formed(#[trigger] items[i])
}

pub open spec fn values_ok(m: Seq<Entry>) -> bool {
    forall|i: int| 0 <= i < m.len() ==> well_formed(#[trigger] m[i].1)
}

proof fn lemma_fold_ok(kvs: Seq<Entry>)
    requires
        values_ok(kvs),
    ensures
        values_ok(fold_pairs(kvs).0),
    decreases kvs.len(),
{
    if kvs.len() > 0 {
        let rest = kvs.drop_last();
        assert(values_ok(rest)) by {
            assert forall|i: int| 0 <= i < rest.len() implies well_formed(#[trigger] rest[i].1) by {
                assert(rest[i] == kvs[i]);
            }
        }
        lemma_fold_ok(rest);
        lemma_fold_pairs(rest);
        let st = fold_pairs(rest);
        let (k, v) = kvs.last();
        assert(well_formed(kvs[kvs.len() - 1].1));
        lemma_find_key(st.0, k, 0);
        let j = find_key(st.0, k, 0);
        if j >= 0 {
            assert(well_formed(st.0[j].1));
            match st.0[j].1 {
                Node::List(items) => {
                    if v is List && !st.1[j] {
                        let w = seq![Node::List(items), v];
                        assert(all_ok(w));
                    } else {
                        assert(all_ok(items.push(v))) by {
                            assert forall|i: int| 0 <= i < items.len() + 1 implies well_formed(
                                #[trigger] items.push(v)[i],
                            ) by {
                                if i < items.len() {
                                    assert(items.push(v)[i] == items[i]);
                                }
                            }
                        }
                    }
                },
                stored => {
                    let w = seq![stored, v];
                    assert(all_ok(w));
                },
            }
        }
    }
}

/// The map that a body's pairs fold into has unique keys, and its values are
/// well formed where the pairs' values are.
pub proof fn lemma_fold_map_ok(kvs: Seq<Entry>)
    requires
        values_ok(kvs),
    ensures
        well_formed(Node::Dict(fold_map(kvs))),
{
    lemma_fold_ok(kvs);
    lemma_fold_pairs(kvs);
}

/// The float rule never reads a text that denotes NaN.
pub proof fn law_float_not_nan(s: Seq<char>, p: int)
    ensures
        float_at(s, p) matches Ok((t, _)) ==> float_text_ok(t),
{
    let q = skip_ws(s, p);
    lemma_numeral_end(s, q);
    if let Ok((t, e)) = float_at(s, p) {
        assert(t == s.subrange(q, e));
        if nan_at(t, 0) {
            assert(t[0] == s[q] && t[1] == s[q + 1] && t[2] == s[q + 2]);
            assert(nan_at(s, q));
        }
    }
}

proof fn lemma_color_ok(s: Seq<char>, p: int)
    ensures
        color_at(s, p) matches Ok((n, _)) ==> well_formed(n),
{
    let q = skip_ws(s, p);
    let r = skip_ws(s, q + 3);
    if let Ok((n, _)) = color_at(s, p) {
        law_float_not_nan(s, r + 1);
        if let Ok((_, e1)) = float_at(s, r + 1) {
            law_float_not_nan(s, e1);
            if let Ok((_, e2)) = float_at(s, e1) {
                law_float_not_nan(s, e2);
            }
        }
        let space = s.subrange(q, q + 3);
        if at(s, q, 'r') && at(s, q + 1, 'g') && at(s, q + 2, 'b') {
            assert(space =~= seq!['r', 'g', 'b']);
        } else {
            assert(space =~= seq!['h', 's', 'v']);
        }
    }
}

proof fn lemma_leaf_ok(s: Seq<char>, p: int)
    ensures
        leaf_at(s, p) matches Ok((n, _)) ==> well_formed(n),
{
    law_float_not_nan(s, p);
    lemma_color_ok(s, p);
}

/// A value that parses is well formed at every depth.
pub proof fn law_value_well_formed(s: Seq<char>, p: int)
    ensures
        value_at(s, p) matches Ok((n, _)) ==> well_formed(n),
    decreases s.len() - p, 3int,
{
    lemma_leaf_ok(s, p);
    lemma_list_ok(s, p);
    lemma_map_ok(s, p);
}

proof fn lemma_list_ok(s: Seq<char>, p: int)
    ensures
        list_at(s, p) matches Ok((n, _)) ==> well_formed(n),
    decreases s.len() - p, 2int,
{
    if at(s, p, '{') {
        lemma_list_items_ok(s, p + 1);
    }
}

proof fn lemma_list_items_ok(s: Seq<char>, i: int)
    ensures
        list_items(s, i) matches Ok((items, _)) ==> all_ok(items),
    decreases s.len() - i, 4int,
{
    let q = skip_ws(s, i);
    lemma_skip_ws(s, i);
    law_value_well_formed(s, q);
    if let Ok((v, e)) = value_at(s, q) {
        if advances(s, q, e) {
            assert(all_ok(seq![v]));
            lemma_more_items_ok(s, e, seq![v]);
        }
    }
}

proof fn lemma_more_items_ok(s: Seq<char>, i: int, acc: Seq<Node>)
    requires
        all_ok(acc),
    ensures
        more_items(s, i, acc) matches Ok((items, _)) ==> all_ok(items),
    decreases s.len() - i, 4int,
{
    let w = skip_ws(s, i);
    lemma_skip_ws(s, i);
    if w > i {
        law_value_well_formed(s, w);
        if let Ok((v, e)) = value_at(s, w) {
            if advances(s, w, e) {
                assert(all_ok(acc.push(v))) by {
                    assert forall|k: int| 0 <= k < acc.len() + 1 implies well_formed(
                        #[trigger] acc.push(v)[k],
                    ) by {
                        if k < acc.len() {
                            assert(acc.push(v)[k] == acc[k]);
                        }
                    }
                }
                lemma_more_items_ok(s, e, acc.push(v));
            }
        }
    }
}

proof fn lemma_map_ok(s: Seq<char>, p: int)
    ensures
        map_at(s, p) matches Ok((n, _)) ==> well_formed(n),
    decreases s.len() - p, 2int,
{
    let q = skip_ws(s, p);
    lemma_skip_ws(s, p);
    if at(s, q, '{') {
        lemma_pairs_ok(s, q + 1);
        if let Ok((kvs, _)) = pairs_at(s, q + 1) {
            lemma_fold_map_ok(kvs);
        }
    }
}

proof fn lemma_pairs_ok(s: Seq<char>, i: int)
    ensures
        pairs_at(s, i) matches Ok((kvs, _)) ==> values_ok(kvs),
    decreases s.len() - i, 5int,
{
    let q = skip_ws(s, i);
    lemma_skip_ws(s, i);
    lemma_pair_ok(s, q);
    if let Ok((kv, e)) = pair_at(s, q) {
        if advances(s, q, e) {
            assert(values_ok(seq![kv]));
            lemma_more_pairs_ok(s, e, seq![kv]);
        }
    }
}

proof fn lemma_more_pairs_ok(s: Seq<char>, i: int, acc: Seq<Entry>)
    requires
        values_ok(acc),
    ensures
        more_pairs(s, i, acc) matches Ok((kvs, _)) ==> values_ok(kvs),
    decreases s.len() - i, 5int,
{
    let w = skip_ws(s, i);
    lemma_skip_ws(s, i);
    if w > i {
        lemma_pair_ok(s, w);
        if let Ok((kv, e)) = pair_at(s, w) {
            if advances(s, w, e) {
                assert(values_ok(acc.push(kv))) by {
                    assert forall|k: int| 0 <= k < acc.len() + 1 implies well_formed(
                        #[trigger] acc.push(kv)[k].1,
                    ) by {
                        if k < acc.len() {
                            assert(acc.push(kv)[k] == acc[k]);
                        }
                    }
                }
                lemma_more_pairs_ok(s, e, acc.push(kv));
            }
        }
    }
}

proof fn lemma_pair_ok(s: Seq<char>, q: int)
    ensures
        pair_at(s, q) matches Ok((kv, _)) ==> well_formed(kv.1),
    decreases s.len() - q, 4int,
{
    lemma_key_at(s, q);
    if let Ok((k, e1)) = key_at(s, q) {
        lemma_sep_at(s, e1);
        if let Some(e2) = sep_at(s, e1) {
            lemma_unquoted_at(s, e2);
            law_value_well_formed(s, e2);
            if let Ok((_, e3)) = unquoted_at(s, e2) {
                lemma_sep_at(s, e3);
                if let Some(e4) = sep_at(s, e3) {
                    law_value_well_formed(s, e4);
                }
            }
        }
    }
}

/// A document that parses is a map.
pub proof fn law_document_is_map(s: Seq<char>)
    ensures
        document(s) matches Ok(n) ==> n is Dict,
{
}

/// The tree of a document that parses is well formed: at any depth no map
/// holds a key twice, every colour is `rgb` or `hsv`, and no float is NaN.
pub proof fn law_document_well_formed(s: Seq<char>)
    ensures
        document(s) matches Ok(n) ==> well_formed(n),
{
    lemma_pairs_ok(s, 0);
    if let Ok((kvs, _)) = pairs_at(s, 0) {
        lemma_fold_map_ok(kvs);
    }
}

/// A value that is a date is the text of the date, character for character,
/// from where whitespace ends.
pub proof fn law_date_verbatim(s: Seq<char>, p: int)
    ensures
        date_at(s, p) matches Ok((t, e)) ==> t == s.subrange(skip_ws(s, p), e) && value_at(
            s,
            p,
        ) == Ok::<
            (Node, int),
            Failure,
        >((Node::Str(t), e)),
{
}

/// A numeric token that reads as an integer, where no date stands, is an
/// integer value and never a float.
pub proof fn law_integer_first(s: Seq<char>, p: int)
    ensures
        date_at(s, p) is Err ==> (int_at(s, p) matches Ok((v, e)) ==> value_at(s, p) == Ok::<
            (Node, int),
            Failure,
        >((Node::Int(v), e))),
{
}

proof fn lemma_skip_blank(s: Seq<char>, i: int)
    requires
        0 <= i <= s.len(),
        forall|j: int| 0 <= j < s.len() ==> is_ws(#[trigger] s[j]),
    ensures
        skip_ws(s, i) == s.len(),
    decreases s.len() - i,
{
    if i < s.len() {
        lemma_skip_blank(s, i + 1);
    }
}

/// A document of whitespace only, the empty one among them, does not parse:
/// a map body needs at least one pair.
pub proof fn law_blank_document_fails(s: Seq<char>)
    requires
        forall|j: int| 0 <= j < s.len() ==> is_ws(#[trigger] s[j]),
    ensures
        document(s) is Err,
{
    lemma_skip_blank(s, 0);
    let q = s.len() as int;
    assert(skip_ws(s, q) == q);
    assert(ident_end(s, q) == q);
    assert(str_at(s, q) is Err);
    assert(unquoted_at(s, q) is Err);
}

/// Some entry of `m` has the key `k`.
pub open spec fn has_key(m: Seq<Entry>, k: Seq<char>) -> bool {
    exists|j: int| 0 <= j < m.len() && #[trigger] m[j].0 == k
}

proof fn lemma_fold_keys(kvs: Seq<Entry>, k: Seq<char>)
    ensures
        has_key(fold_pairs(kvs).0, k) == has_key(kvs, k),
    decreases kvs.len(),
{
    if kvs.len() > 0 {
        let rest = kvs.drop_last();
        let k0 = kvs.last().0;
        let st = fold_pairs(rest);
        let m = fold_pairs(kvs).0;
        lemma_fold_keys(rest, k);
        lemma_fold_pairs(rest);
        lemma_find_key(st.0, k0, 0);
        let j = find_key(st.0, k0, 0);
        assert(has_key(kvs, k) == (has_key(rest, k) || k == k0)) by {
            if has_key(rest, k) {
                let i = choose|i: int| 0 <= i < rest.len() && #[trigger] rest[i].0 == k;
                assert(kvs[i] == rest[i]);
            }
            if k == k0 {
                assert(kvs[kvs.len() - 1].0 == k);
            }
            if has_key(kvs, k) && k != k0 {
                let i = choose|i: int| 0 <= i < kvs.len() && #[trigger] kvs[i].0 == k;
                assert(rest[i] == kvs[i]);
            }
        }
        assert(has_key(m, k) == (has_key(st.0, k) || k == k0)) by {
            if j < 0 {
                assert(m == st.0.push((k0, kvs.last().1)));
                assert(m[st.0.len() as int].0 == k0);
                if has_key(st.0, k) {
                    let i = choose|i: int| 0 <= i < st.0.len() && #[trigger] st.0[i].0 == k;
                    assert(m[i] == st.0[i]);
                }
                if has_key(m, k) && k != k0 {
                    let i = choose|i: int| 0 <= i < m.len() && #[trigger] m[i].0 == k;
                    assert(m[i] == st.0[i]);
                }
            } else {
                assert(m.len() == st.0.len());
                assert(m[j].0 == k0);
                assert(forall|i: int| 0 <= i < m.len() ==> #[trigger] m[i].0 == st.0[i].0);
                if has_key(st.0, k) {
                    let i = choose|i: int| 0 <= i < st.0.len() && #[trigger] st.0[i].0 == k;
                    assert(m[i].0 == k);
                }
                if has_key(m, k) {
                    let i = choose|i: int| 0 <= i < m.len() && #[trigger] m[i].0 == k;
                    assert(st.0[i].0 == k);
                }
            }
        }
    }
}

/// Folding the pairs of a body keeps every key and adds none: the folded map
/// holds a key exactly when some pair has it, and holds it once.
pub proof fn law_fold_keeps_each_key_once(kvs: Seq<Entry>, k: Seq<char>)
    ensures
        has_key(fold_map(kvs), k) <==> has_key(kvs, k),
        keys_unique(fold_map(kvs)),
{
    lemma_fold_keys(kvs, k);
    lemma_fold_pairs(kvs);
}

} // verus!
