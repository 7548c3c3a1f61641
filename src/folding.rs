//! Folding of repeated keys within one map body.
//!
//! The pairs of a body are read left to right. The first value of a key is
//! stored as it is. A second value turns a stored value that is not a list into
//! the list of both. Once a list is stored, an incoming list that is the first
//! list to arrive after it wraps both into a new outer list, and the key is
//! marked as nested; any other incoming value is appended to the stored list.
use vstd::prelude::*;
use crate::lexer::chars_of;
use crate::value::{entries_of, lemma_list_view, Node, Value};
use std::collections::HashMap;

verus! {

/// A key and its value, as the model sees them.
pub type Entry = (Seq<char>, Node);

/// The first index at or after `i` whose key is `k`, or -1.
pub open spec fn find_key(m: Seq<Entry>, k: Seq<char>, i: int) -> int
    decreases m.len() - i,
{
    if 0 <= i < m.len() {
        if m[i].0 == k {
            i
        } else {
            find_key(m, k, i + 1)
        }
    } else {
        -1
    }
}

/// One step of the fold: the stored entries with their nested marks, and an
/// incoming pair.
pub open spec fn fold_step(m: Seq<Entry>, nested: Seq<bool>, k: Seq<char>, v: Node) -> (
    Seq<Entry>,
    Seq<bool>,
) {
    let j = find_key(m, k, 0);
    if j < 0 {
        (m.push((k, v)), nested.push(false))
    } else {
        match m[j].1 {
            Node::List(items) => if v is List && !nested[j] {
                (m.update(j, (k, Node::List(seq![Node::List(items), v]))), nested.update(j, true))
            } else {
                (m.update(j, (k, Node::List(items.push(v)))), nested)
            },
            stored => (m.update(j, (k, Node::List(seq![stored, v]))), nested),
        }
    }
}

/// The entries and nested marks after folding all of `kvs`.
pub open spec fn fold_pairs(kvs: Seq<Entry>) -> (Seq<Entry>, Seq<bool>)
    decreases kvs.len(),
{
    if kvs.len() == 0 {
        (Seq::empty(), Seq::empty())
    } else {
        let st = fold_pairs(kvs.drop_last());
        fold_step(st.0, st.1, kvs.last().0, kvs.last().1)
    }
}

/// The map that the pairs `kvs` of one body make.
pub open spec fn fold_map(kvs: Seq<Entry>) -> Seq<Entry> {
    fold_pairs(kvs).0
}

/// No two entries share a key.
pub open spec fn keys_unique(m: Seq<Entry>) -> bool {
    forall|a: int, b: int| 0 <= a < b < m.len() ==> m[a].0 != m[b].0
}

pub proof fn lemma_find_key(m: Seq<Entry>, k: Seq<char>, i: int)
    requires
        0 <= i,
    ensures
        find_key(m, k, i) == -1 || (i <= find_key(m, k, i) < m.len() && m[find_key(
            m,
            k,
            i,
        )].0 == k),
        find_key(m, k, i) == -1 ==> forall|j: int| i <= j < m.len() ==> m[j].0 != k,
        find_key(m, k, i) >= 0 ==> forall|j: int| i <= j < find_key(m, k, i) ==> m[j].0 != k,
    decreases m.len() - i,
{
    if 0 <= i < m.len() && m[i].0 != k {
        lemma_find_key(m, k, i + 1);
    }
}

/// Folding keeps keys unique and the marks beside the entries.
pub proof fn lemma_fold_pairs(kvs: Seq<Entry>)
    ensures
        keys_unique(fold_pairs(kvs).0),
        fold_pairs(kvs).0.len() == fold_pairs(kvs).1.len(),
    decreases kvs.len(),
{
    if kvs.len() > 0 {
        let st = fold_pairs(kvs.drop_last());
        lemma_fold_pairs(kvs.drop_last());
        lemma_find_key(st.0, kvs.last().0, 0);
    }
}

/// A bucket number for a key; equal keys share it.
pub open spec fn key_hash(k: Seq<char>) -> int
    decreases k.len(),
{
    if k.len() == 0 {
        0
    } else {
        (key_hash(k.drop_last()) * 31 + (k.last() as u32) as int) % 1000000007
    }
}

fn key_hash_of(k: &String) -> (h: u64)
    ensures
        h as int == key_hash(k@),
{
    let cs = chars_of(k.as_str());
    let mut h: u64 = 0;
    let mut i: usize = 0;
    proof {
        assert(cs@.take(0) =~= Seq::<char>::empty());
    }
    while i < cs.len()
        invariant
            i <= cs.len(),
            cs@ == k@,
            h as int == key_hash(cs@.take(i as int)),
            h < 1000000007,
        decreases cs.len() - i,
    {
        proof {
            assert(cs@.take(i + 1).drop_last() =~= cs@.take(i as int));
        }
        h = (h * 31 + cs[i] as u32 as u64) % 1000000007;
        i = i + 1;
    }
    proof {
        assert(cs@.take(i as int) =~= cs@);
    }
    h
}

/// Every entry of `out` is listed in the bucket of its key's hash, and every
/// listed index is an entry of `out`.
pub open spec fn index_ok(out: Seq<(String, Value)>, index: Map<u64, Vec<usize>>) -> bool {
    &&& forall|j: int|
        0 <= j < out.len() ==> index.contains_key(key_hash(#[trigger] out[j].0@) as u64)
            && index[key_hash(out[j].0@) as u64]@.contains(j as usize)
    &&& forall|h: u64, t: int|
        index.contains_key(h) && 0 <= t < index[h].len() ==> #[trigger] index[h]@[t] < out.len()
}

proof fn lemma_found(m: Seq<Entry>, k: Seq<char>, j: int)
    requires
        keys_unique(m),
        0 <= j < m.len(),
        m[j].0 == k,
    ensures
        find_key(m, k, 0) == j,
{
    lemma_find_key(m, k, 0);
    let f = find_key(m, k, 0);
    if f != j {
        if f < j {
            assert(m[f].0 != m[j].0);
        } else {
            assert(m[j].0 != m[f].0);
        }
    }
}

proof fn lemma_absent(m: Seq<Entry>, k: Seq<char>)
    requires
        forall|j: int| 0 <= j < m.len() ==> #[trigger] m[j].0 != k,
    ensures
        find_key(m, k, 0) == -1,
{
    lemma_find_key(m, k, 0);
}

/// An entry whose key hashes to `h` is listed in the bucket of `h`; so if no
/// entry listed there has key `k`, none has.
proof fn lemma_bucket_covers(
    out: Seq<(String, Value)>,
    index: Map<u64, Vec<usize>>,
    h: u64,
    k: Seq<char>,
)
    requires
        index_ok(out, index),
        out.len() <= usize::MAX,
        h as int == key_hash(k),
        index.contains_key(h) ==> forall|u: int|
            0 <= u < index[h]@.len() ==> out[#[trigger] index[h]@[u] as int].0@ != k,
    ensures
        forall|j: int| 0 <= j < out.len() ==> #[trigger] entries_of(out)[j].0 != k,
{
    assert forall|j: int| 0 <= j < out.len() implies #[trigger] entries_of(out)[j].0 != k by {
        if entries_of(out)[j].0 == k {
            assert(out[j].0@ == k);
            assert(index[h]@.contains(j as usize));
            let u = choose|u: int| 0 <= u < index[h]@.len() && index[h]@[u] == j as usize;
            assert(out[index[h]@[u] as int].0@ != k);
        }
    }
}

/// The index of the entry of `out` whose key is `k`, whose hash is `h`.
fn find_entry(out: &Vec<(String, Value)>, index: &HashMap<u64, Vec<usize>>, k: &String, h: u64) -> (r:
    Option<usize>)
    requires
        index_ok(out@, index@),
        keys_unique(entries_of(out@)),
        h as int == key_hash(k@),
    ensures
        r matches Some(j) ==> find_key(entries_of(out@), k@, 0) == j as int,
        r is None ==> find_key(entries_of(out@), k@, 0) == -1,
{
    let n = out.len();
    match index.get(&h) {
        None => {
            proof {
                lemma_bucket_covers(out@, index@, h, k@);
                lemma_absent(entries_of(out@), k@);
            }
            None
        },
        Some(bucket) => {
            let mut t: usize = 0;
            while t < bucket.len()
                invariant
                    t <= bucket.len(),
                    index@.contains_key(h) && index@[h] == *bucket,
                    keys_unique(entries_of(out@)),
                    n == out@.len(),
                    forall|u: int| 0 <= u < bucket@.len() ==> #[trigger] bucket@[u] < out.len(),
                    forall|u: int| 0 <= u < t ==> out@[#[trigger] bucket@[u] as int].0@ != k@,
                decreases bucket.len() - t,
            {
                let j = bucket[t];
                if out[j].0 == *k {
                    proof {
                        assert(entries_of(out@)[j as int].0 == k@);
                        lemma_found(entries_of(out@), k@, j as int);
                    }
                    return Some(j);
                }
                t = t + 1;
            }
            proof {
                lemma_bucket_covers(out@, index@, h, k@);
                lemma_absent(entries_of(out@), k@);
            }
            None
        },
    }
}

/// The index stays valid where only values change.
proof fn lemma_index_same_keys(
    a: Seq<(String, Value)>,
    b: Seq<(String, Value)>,
    index: Map<u64, Vec<usize>>,
)
    requires
        index_ok(a, index),
        a.len() == b.len(),
        forall|u: int| 0 <= u < a.len() ==> #[trigger] a[u].0@ == b[u].0@,
    ensures
        index_ok(b, index),
{
    assert forall|j: int| 0 <= j < b.len() implies index.contains_key(
        key_hash(#[trigger] b[j].0@) as u64,
    ) && index[key_hash(b[j].0@) as u64]@.contains(j as usize) by {
        assert(a[j].0@ == b[j].0@);
    }
}

/// Folds the pairs of one map body, in the order written, into its entries.
pub fn fold_entries(kvs: Vec<(String, Value)>) -> (r: Vec<(String, Value)>)
    ensures
        entries_of(r@) == fold_map(entries_of(kvs@)),
{
    let ghost all = entries_of(kvs@);
    let mut kvs = kvs;
    let mut out: Vec<(String, Value)> = Vec::new();
    let mut nested: Vec<bool> = Vec::new();
    let mut index: HashMap<u64, Vec<usize>> = HashMap::new();
    let mut i: usize = 0;
    proof {
        assert(all.take(0) =~= Seq::<Entry>::empty());
    }
    while i < kvs.len()
        invariant
            i <= kvs.len() == all.len(),
            forall|j: int| i <= j < kvs.len() ==> (kvs@[j].0@, kvs@[j].1@) == #[trigger] all[j],
            fold_pairs(all.take(i as int)) == (entries_of(out@), nested@),
            index_ok(out@, index@),
        decreases kvs.len() - i,
    {
        let mut taken = (String::new(), Value::Int(0));
        kvs.set_and_swap(i, &mut taken);
        let (k, v) = taken;
        let ghost before = entries_of(out@);
        proof {
            assert(all.take(i + 1).drop_last() =~= all.take(i as int));
            assert((k@, v@) == all[i as int]);
            lemma_fold_pairs(all.take(i as int));
            lemma_find_key(before, k@, 0);
        }
        let h = key_hash_of(&k);
        match find_entry(&out, &index, &k, h) {
            None => {
                let n = out.len();
                let ghost old_out = out@;
                let ghost old_index = index@;
                let mut bucket = match index.remove(&h) {
                    Some(b) => b,
                    None => Vec::new(),
                };
                let ghost old_bucket = bucket@;
                bucket.push(n);
                index.insert(h, bucket);
                out.push((k, v));
                nested.push(false);
                proof {
                    assert(entries_of(out@) =~= before.push((k@, v@)));
                    assert forall|j: int| 0 <= j < out@.len() implies index@.contains_key(
                        key_hash(#[trigger] out@[j].0@) as u64,
                    ) && index@[key_hash(out@[j].0@) as u64]@.contains(j as usize) by {
                        if j < n {
                            assert(out@[j] == old_out[j]);
                            let hj = key_hash(old_out[j].0@) as u64;
                            if hj == h {
                                let u = choose|u: int|
                                    0 <= u < old_index[hj]@.len() && old_index[hj]@[u] == j as usize;
                                assert(index@[h]@[u] == j as usize);
                            }
                        } else {
                            assert(index@[h]@[old_bucket.len() as int] == n);
                        }
                    }
                    assert forall|hh: u64, t: int|
                        index@.contains_key(hh) && 0 <= t < index@[hh].len() implies #[trigger] index@[hh]@[t]
                        < out@.len() by {
                        if hh == h {
                            if t < old_bucket.len() {
                                assert(old_index[h]@[t] < old_out.len());
                            }
                        } else {
                            assert(old_index[hh]@[t] < old_out.len());
                        }
                    }
                }
            },
            Some(j) => {
                let ghost orig = out@;
                proof {
                    lemma_find_key(before, k@, 0);
                }
                let mut slot = (String::new(), Value::Int(0));
                out.set_and_swap(j, &mut slot);
                let (key, stored) = slot;
                let ghost stored_view = stored@;
                let is_list_in = match &v {
                    Value::List(_) => true,
                    _ => false,
                };
                let folded = match stored {
                    Value::List(items) => {
                        if is_list_in && !nested[j] {
                            nested.set(j, true);
                            let mut w: Vec<Value> = Vec::new();
                            w.push(Value::List(items));
                            w.push(v);
                            proof {
                                lemma_list_view(items);
                                lemma_list_view(w);
                                assert(crate::value::nodes_of(w@) =~= seq![stored_view, v@]);
                            }
                            Value::List(w)
                        } else {
                            let ghost old_items = items;
                            let mut items = items;
                            items.push(v);
                            proof {
                                lemma_list_view(old_items);
                                lemma_list_view(items);
                                assert(crate::value::nodes_of(items@) =~= crate::value::nodes_of(
                                    old_items@,
                                ).push(v@));
                            }
                            Value::List(items)
                        }
                    },
                    other => {
                        let mut w: Vec<Value> = Vec::new();
                        w.push(other);
                        w.push(v);
                        proof {
                            lemma_list_view(w);
                            assert(crate::value::nodes_of(w@) =~= seq![stored_view, v@]);
                        }
                        Value::List(w)
                    },
                };
                out.set(j, (key, folded));
                proof {
                    assert(before[j as int].0 == k@);
                    assert(key@ == k@);
                    assert forall|u: int| 0 <= u < out@.len() implies #[trigger] orig[u].0@
                        == out@[u].0@ by {
                        if u != j {
                            assert(out@[u] == orig[u]);
                        }
                    }
                    lemma_index_same_keys(orig, out@, index@);
                    assert(entries_of(out@) =~= before.update(j as int, (k@, folded@)));
                }
            },
        }
        i = i + 1;
    }
    proof {
        assert(all.take(i as int) =~= all);
    }
    out
}

} // verus!
