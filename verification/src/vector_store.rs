//! The vector store: five correlated tables keyed by pattern id —
//! embeddings, pattern metadata, usage metrics, and two secondary indexes
//! (tag and file path).
//!
//! The verified model of the store is a set of in-memory association lists
//! with unique keys; every committed write is mirrored into a redb database
//! file through the trusted wrappers in [`crate::storage`], and `open`
//! rebuilds the model from that file.

use vstd::prelude::*;

use crate::pattern_extractor::Pattern;
use crate::schema::{
    embedding_record_wf, fresh_metrics_view, metrics_wf, EmbeddingRecord, PerformanceMetrics,
};
use crate::similarity::bounded_vector;
use crate::{TemporalAIError, EMBEDDING_DIM};

verus! {

/// Lookup in an association list: the value of the first pair whose key has
/// view `k`.
pub open spec fn assoc_get<V>(s: Seq<(String, V)>, k: Seq<char>) -> Option<V>
    decreases s.len(),
{
    if s.len() == 0 {
        None
    } else if s[0].0@ == k {
        Some(s[0].1)
    } else {
        assoc_get(s.drop_first(), k)
    }
}

/// No two pairs share a key.
pub open spec fn assoc_keys_unique<V>(s: Seq<(String, V)>) -> bool {
    forall|i: int, j: int| 0 <= i < j < s.len() ==> s[i].0@ != s[j].0@
}

/// A list of id strings with pairwise distinct views.
pub open spec fn no_dup_ids(ids: Seq<Seq<char>>) -> bool {
    forall|i: int, j: int| 0 <= i < j < ids.len() ==> ids[i] != ids[j]
}

/// A match at index `i`, with no earlier match, fixes `assoc_get`.
pub proof fn lemma_assoc_get_index<V>(s: Seq<(String, V)>, k: Seq<char>, i: int)
    requires
        0 <= i < s.len(),
        s[i].0@ == k,
        forall|j: int| 0 <= j < i ==> s[j].0@ != k,
    ensures
        assoc_get(s, k) == Some(s[i].1),
    decreases i,
{
    if i > 0 {
        lemma_assoc_get_index(s.drop_first(), k, i - 1);
    }
}

/// No match anywhere means `assoc_get` is `None`.
pub proof fn lemma_assoc_get_none<V>(s: Seq<(String, V)>, k: Seq<char>)
    requires
        forall|j: int| 0 <= j < s.len() ==> s[j].0@ != k,
    ensures
        assoc_get(s, k) is None,
    decreases s.len(),
{
    if s.len() > 0 {
        lemma_assoc_get_none(s.drop_first(), k);
    }
}

/// `None` from `assoc_get` means no pair matches.
pub proof fn lemma_assoc_none_forall<V>(s: Seq<(String, V)>, k: Seq<char>)
    requires
        assoc_get(s, k) is None,
    ensures
        forall|j: int| 0 <= j < s.len() ==> s[j].0@ != k,
    decreases s.len(),
{
    if s.len() > 0 {
        lemma_assoc_none_forall(s.drop_first(), k);
        assert forall|j: int| 0 <= j < s.len() implies s[j].0@ != k by {
            if j > 0 {
                assert(s.drop_first()[j - 1].0@ != k);
            }
        }
    }
}

/// A `Some` result comes from some index.
pub proof fn lemma_assoc_get_some_index<V>(s: Seq<(String, V)>, k: Seq<char>)
    requires
        assoc_get(s, k) is Some,
    ensures
        exists|i: int|
            0 <= i < s.len() && s[i].0@ == k && assoc_get(s, k) == Some(#[trigger] s[i].1),
    decreases s.len(),
{
    if s.len() > 0 {
        if s[0].0@ == k {
            assert(s[0].0@ == k && assoc_get(s, k) == Some(s[0].1));
        } else {
            lemma_assoc_get_some_index(s.drop_first(), k);
            let i = choose|i: int|
                0 <= i < s.drop_first().len() && s.drop_first()[i].0@ == k && assoc_get(
                    s.drop_first(),
                    k,
                ) == Some(#[trigger] s.drop_first()[i].1);
            assert(s[i + 1].0@ == k && assoc_get(s, k) == Some(s[i + 1].1));
        }
    }
}

/// Replacing the pair at the first occurrence of a key rewrites that key's
/// binding and nothing else.
pub proof fn lemma_assoc_get_update<V>(s: Seq<(String, V)>, i: int, p: (String, V), k: Seq<char>)
    requires
        0 <= i < s.len(),
        forall|j: int| 0 <= j < i ==> s[j].0@ != s[i].0@,
        p.0@ == s[i].0@,
    ensures
        assoc_get(s.update(i, p), k) == if k == s[i].0@ {
            Some(p.1)
        } else {
            assoc_get(s, k)
        },
    decreases i,
{
    let t = s.update(i, p);
    if i == 0 {
        if k == s[0].0@ {
        } else {
            assert(t.drop_first() =~= s.drop_first());
        }
    } else {
        assert(t[0] == s[0]);
        if k == s[0].0@ {
        } else {
            assert(t.drop_first() =~= s.drop_first().update(i - 1, p));
            lemma_assoc_get_update(s.drop_first(), i - 1, p, k);
        }
    }
}

/// Appending a pair with a fresh key binds that key and changes nothing else.
pub proof fn lemma_assoc_get_push<V>(s: Seq<(String, V)>, p: (String, V), k: Seq<char>)
    requires
        forall|j: int| 0 <= j < s.len() ==> s[j].0@ != p.0@,
    ensures
        assoc_get(s.push(p), k) == if k == p.0@ {
            Some(p.1)
        } else {
            assoc_get(s, k)
        },
    decreases s.len(),
{
    if s.len() == 0 {
        assert(s.push(p)[0] == p);
        if k != p.0@ {
            assert(s.push(p).drop_first() =~= Seq::<(String, V)>::empty());
            assert(assoc_get(Seq::<(String, V)>::empty(), k) is None);
            assert(assoc_get(s.push(p), k) is None);
            assert(assoc_get(s, k) is None);
        } else {
            assert(assoc_get(s.push(p), k) == Some(p.1));
        }
    } else {
        assert(s.push(p)[0] == s[0]);
        assert(s[0].0@ != p.0@);
        if k == s[0].0@ {
            assert(assoc_get(s.push(p), k) == Some(s[0].1));
            assert(assoc_get(s, k) == Some(s[0].1));
        } else {
            assert(s.push(p).drop_first() =~= s.drop_first().push(p));
            assert forall|j: int| 0 <= j < s.drop_first().len() implies s.drop_first()[j].0@
                != p.0@ by {
                assert(s.drop_first()[j] == s[j + 1]);
            }
            lemma_assoc_get_push(s.drop_first(), p, k);
        }
    }
}

/// Index of the first pair whose key view equals `k@`, if any.
fn assoc_find_index<V>(s: &Vec<(String, V)>, k: &String) -> (r: Option<usize>)
    ensures
        match r {
            Some(i) => 0 <= i < s@.len() && s@[i as int].0@ == k@ && (forall|j: int|
                0 <= j < i ==> s@[j].0@ != k@) && assoc_get(s@, k@) == Some(s@[i as int].1),
            None => assoc_get(s@, k@) is None,
        },
{
    let mut i: usize = 0;
    while i < s.len()
        invariant
            0 <= i <= s@.len(),
            forall|j: int| 0 <= j < i ==> s@[j].0@ != k@,
        decreases s@.len() - i,
    {
        if s[i].0 == *k {
            proof {
                lemma_assoc_get_index(s@, k@, i as int);
            }
            return Some(i);
        }
        i = i + 1;
    }
    proof {
        lemma_assoc_get_none(s@, k@);
    }
    None
}

/// Binds `key` to `value`, replacing an existing binding in place or
/// appending a new one; all other keys keep their bindings.
fn assoc_upsert<V>(s: &mut Vec<(String, V)>, key: String, value: V)
    requires
        assoc_keys_unique(old(s)@),
    ensures
        assoc_keys_unique(final(s)@),
        assoc_get(final(s)@, key@) == Some(value),
        forall|k2: Seq<char>| k2 != key@ ==> assoc_get(final(s)@, k2) == assoc_get(old(s)@, k2),
        final(s)@.len() <= old(s)@.len() + 1,
{
    let ghost s0 = s@;
    match assoc_find_index(s, &key) {
        Some(i) => {
            s.remove(i);
            s.insert(i, (key, value));
            proof {
                assert(s@ =~= s0.update(i as int, (key, value)));
                lemma_assoc_get_update(s0, i as int, (key, value), key@);
                assert forall|k2: Seq<char>| k2 != key@ implies assoc_get(s@, k2) == assoc_get(
                    s0,
                    k2,
                ) by {
                    lemma_assoc_get_update(s0, i as int, (key, value), k2);
                }
                assert forall|a: int, b: int| 0 <= a < b < s@.len() implies s@[a].0@
                    != s@[b].0@ by {
                    assert(s0[a].0@ != s0[b].0@);
                }
            }
        },
        None => {
            s.push((key, value));
            proof {
                lemma_assoc_none_forall(s0, key@);
                lemma_assoc_get_push(s0, (key, value), key@);
                assert forall|k2: Seq<char>| k2 != key@ implies assoc_get(s@, k2) == assoc_get(
                    s0,
                    k2,
                ) by {
                    lemma_assoc_get_push(s0, (key, value), k2);
                }
            }
        },
    }
}

/// Whether `a` is lexicographically at most `b`.
fn str_le(a: &String, b: &String) -> (r: bool)
    ensures
        r == lex_le(a@, b@),
{
    let an: usize = a.as_str().unicode_len();
    let bn: usize = b.as_str().unicode_len();
    proof {
        assert(a@.skip(0) =~= a@);
        assert(b@.skip(0) =~= b@);
    }
    let mut i: usize = 0;
    while i < an && i < bn
        invariant
            0 <= i <= an,
            i <= bn,
            an == a@.len(),
            bn == b@.len(),
            lex_le(a@, b@) == lex_le(a@.skip(i as int), b@.skip(i as int)),
        decreases an - i,
    {
        let ca = a.as_str().get_char(i);
        let cb = b.as_str().get_char(i);
        if ca == cb {
            proof {
                assert(a@.skip(i as int).drop_first() =~= a@.skip(i as int + 1));
                assert(b@.skip(i as int).drop_first() =~= b@.skip(i as int + 1));
                assert(a@.skip(i as int)[0] == ca);
                assert(b@.skip(i as int)[0] == cb);
            }
            i = i + 1;
        } else {
            proof {
                assert(a@.skip(i as int)[0] == ca);
                assert(b@.skip(i as int)[0] == cb);
            }
            return (ca as u32) < (cb as u32);
        }
    }
    proof {
        if i == an {
            assert(a@.skip(i as int).len() == 0);
        } else {
            assert(b@.skip(i as int).len() == 0);
            assert(a@.skip(i as int).len() > 0);
        }
    }
    an <= bn
}

/// The position where `id` belongs in the sorted list `ids`.
fn sorted_position(ids: &Vec<String>, id: &String) -> (p: usize)
    ensures
        0 <= p <= ids@.len(),
        forall|q: int| 0 <= q < p ==> !lex_le(id@, #[trigger] ids.deep_view()[q]),
        p < ids@.len() ==> lex_le(id@, ids.deep_view()[p as int]),
{
    let mut p: usize = 0;
    while p < ids.len()
        invariant
            0 <= p <= ids@.len(),
            forall|q: int| 0 <= q < p ==> !lex_le(id@, #[trigger] ids.deep_view()[q]),
        decreases ids@.len() - p,
    {
        proof {
            assert(ids.deep_view()[p as int] == ids@[p as int]@);
        }
        if str_le(id, &ids[p]) {
            return p;
        }
        p = p + 1;
    }
    p
}

/// A sorted insertion lands exactly at the first position whose entry is at
/// least the new id.
proof fn lemma_sorted_insert_at(ids: Seq<Seq<char>>, id: Seq<char>, p: int)
    requires
        0 <= p <= ids.len(),
        forall|q: int| 0 <= q < p ==> !lex_le(id, #[trigger] ids[q]),
        p < ids.len() ==> lex_le(id, ids[p]),
    ensures
        sorted_insert(ids, id) == ids.take(p) + seq![id] + ids.skip(p),
    decreases p,
{
    if p == 0 {
        if ids.len() == 0 {
            assert(sorted_insert(ids, id) =~= ids.take(0) + seq![id] + ids.skip(0));
        } else {
            assert(sorted_insert(ids, id) =~= ids.take(0) + seq![id] + ids.skip(0));
        }
    } else {
        assert(!lex_le(id, ids[0]));
        let tail = ids.drop_first();
        assert forall|q: int| 0 <= q < p - 1 implies !lex_le(id, #[trigger] tail[q]) by {
            assert(tail[q] == ids[q + 1]);
        }
        if p - 1 < tail.len() {
            assert(tail[p - 1] == ids[p]);
        }
        lemma_sorted_insert_at(tail, id, p - 1);
        assert(sorted_insert(ids, id) =~= ids.take(p) + seq![id] + ids.skip(p)) by {
            assert(sorted_insert(ids, id) == seq![ids[0]] + sorted_insert(tail, id));
            assert(sorted_insert(tail, id) == tail.take(p - 1) + seq![id] + tail.skip(p - 1));
            assert forall|x: int|
                0 <= x < (seq![ids[0]] + (tail.take(p - 1) + seq![id] + tail.skip(p - 1))).len()
                    implies (seq![ids[0]] + (tail.take(p - 1) + seq![id] + tail.skip(p - 1)))[x]
                == (ids.take(p) + seq![id] + ids.skip(p))[x] by {
                if x > 0 && x < p {
                    assert(tail.take(p - 1)[x - 1] == ids[x]);
                } else if x > p {
                    assert(tail.skip(p - 1)[x - 1 - p + 1 - 1] == ids[x - 1]);
                }
            }
        }
    }
}

/// Inserts `id` into the index list under `key` at its lexicographic
/// position, creating the entry when absent and leaving the list unchanged
/// when the id is already present.
fn update_index_entry(table: &mut Vec<(String, Vec<String>)>, key: &String, id: &String)
    requires
        assoc_keys_unique(old(table)@),
    ensures
        assoc_keys_unique(final(table)@),
        index_ids(final(table)@, key@) == id_list_add(index_ids(old(table)@, key@), id@),
        forall|k2: Seq<char>|
            k2 != key@ ==> #[trigger] index_ids(final(table)@, k2) == index_ids(old(table)@, k2),
{
    let ghost t0 = table@;
    match assoc_find_index(table, key) {
        Some(i) => {
            let ghost old_ids = t0[i as int].1.deep_view();
            let mut j: usize = 0;
            let n: usize = table[i].1.len();
            while j < n
                invariant
                    0 <= j <= n,
                    table@ == t0,
                    t0 == old(table)@,
                    assoc_keys_unique(t0),
                    0 <= i < t0.len(),
                    t0[i as int].0@ == key@,
                    assoc_get(t0, key@) == Some(t0[i as int].1),
                    old_ids == t0[i as int].1.deep_view(),
                    n == t0[i as int].1@.len(),
                    old_ids.len() == n,
                    forall|q: int| 0 <= q < j ==> #[trigger] old_ids[q] != id@,
                decreases n - j,
            {
                proof {
                    assert(old_ids[j as int] == t0[i as int].1@[j as int]@);
                }
                if table[i].1[j] == *id {
                    proof {
                        assert(old_ids.contains(id@));
                    }
                    return ;
                }
                j = j + 1;
            }
            proof {
                assert(!old_ids.contains(id@)) by {
                    if old_ids.contains(id@) {
                        let q = choose|q: int| 0 <= q < old_ids.len() && old_ids[q] == id@;
                        assert(old_ids[q] != id@);
                    }
                }
            }
            let (k0, mut ids) = table.remove(i);
            let ghost ids0 = ids.deep_view();
            let p = sorted_position(&ids, id);
            ids.insert(p, id.clone());
            proof {
                assert(ids.deep_view() =~= ids0.take(p as int) + seq![id@] + ids0.skip(p as int))
                    by {
                    assert forall|x: int|
                        0 <= x < ids.deep_view().len() implies ids.deep_view()[x] == (ids0.take(
                        p as int,
                    ) + seq![id@] + ids0.skip(p as int))[x] by {
                        if x < p {
                            assert(ids@[x] == old(table)@[i as int].1@[x]);
                        } else if x > p {
                            assert(ids@[x] == old(table)@[i as int].1@[x - 1]);
                        }
                    }
                }
                lemma_sorted_insert_at(ids0, id@, p as int);
                assert(ids.deep_view() == sorted_insert(ids0, id@));
            }
            table.insert(i, (k0, ids));
            proof {
                assert(table@ =~= t0.update(i as int, (t0[i as int].0, ids)));
                assert(table@[i as int].0@ == t0[i as int].0@);
                lemma_assoc_get_update(t0, i as int, table@[i as int], key@);
                assert forall|k2: Seq<char>| k2 != key@ implies #[trigger] index_ids(table@, k2)
                    == index_ids(t0, k2) by {
                    lemma_assoc_get_update(t0, i as int, table@[i as int], k2);
                }
                assert forall|a: int, b: int| 0 <= a < b < table@.len() implies table@[a].0@
                    != table@[b].0@ by {
                    assert(t0[a].0@ != t0[b].0@);
                }
            }
        },
        None => {
            let mut ids: Vec<String> = Vec::new();
            ids.push(id.clone());
            proof {
                assert(!Seq::<Seq<char>>::empty().contains(id@));
                assert(ids.deep_view() =~= sorted_insert(Seq::<Seq<char>>::empty(), id@));
            }
            let pair = (key.clone(), ids);
            proof {
                lemma_assoc_none_forall(t0, key@);
            }
            table.push(pair);
            proof {
                lemma_assoc_get_push(t0, table@[t0.len() as int], key@);
                assert forall|k2: Seq<char>| k2 != key@ implies #[trigger] index_ids(table@, k2)
                    == index_ids(t0, k2) by {
                    lemma_assoc_get_push(t0, table@[t0.len() as int], k2);
                }
                assert forall|a: int, b: int| 0 <= a < b < table@.len() implies table@[a].0@
                    != table@[b].0@ by {
                    if b < t0.len() {
                        assert(t0[a].0@ != t0[b].0@);
                    } else {
                        assert(table@[b].0@ == key@);
                        assert(t0[a].0@ != key@);
                    }
                }
            }
        },
    }
}

/// A fresh table with the same keys as `table`, for staging index updates
/// without touching the store.
fn copy_index(table: &Vec<(String, Vec<String>)>) -> (r: Vec<(String, Vec<String>)>)
    ensures
        r@.len() == table@.len(),
        forall|i: int| 0 <= i < r@.len() ==> (#[trigger] r@[i].0@) == table@[i].0@,
{
    let mut out: Vec<(String, Vec<String>)> = Vec::new();
    let mut i: usize = 0;
    while i < table.len()
        invariant
            0 <= i <= table@.len(),
            out@.len() == i,
            forall|q: int| 0 <= q < i ==> (#[trigger] out@[q].0@) == table@[q].0@,
        decreases table@.len() - i,
    {
        out.push((table[i].0.clone(), table[i].1.clone()));
        i = i + 1;
    }
    out
}

/// The index list under `key` as it will stand after `id` is inserted at
/// its lexicographic position, computed without changing the table.
fn updated_ids(table: &Vec<(String, Vec<String>)>, key: &String, id: &String) -> (r: Vec<String>)
    ensures
        r.deep_view() == id_list_add(index_ids(table@, key@), id@),
{
    match assoc_find_index(table, key) {
        Some(i) => {
            let ghost cur = table@[i as int].1.deep_view();
            let mut ids = table[i].1.clone();
            proof {
                assert(ids.deep_view() =~= cur);
            }
            let n: usize = ids.len();
            let mut j: usize = 0;
            while j < n
                invariant
                    0 <= j <= n,
                    n == ids@.len(),
                    ids.deep_view() == cur,
                    0 <= i < table@.len(),
                    assoc_get(table@, key@) == Some(table@[i as int].1),
                    cur == table@[i as int].1.deep_view(),
                    forall|q: int| 0 <= q < j ==> #[trigger] cur[q] != id@,
                decreases n - j,
            {
                proof {
                    assert(cur[j as int] == ids@[j as int]@);
                }
                if ids[j] == *id {
                    proof {
                        assert(cur.contains(id@));
                    }
                    return ids;
                }
                j = j + 1;
            }
            proof {
                assert(!cur.contains(id@)) by {
                    if cur.contains(id@) {
                        let q = choose|q: int| 0 <= q < cur.len() && cur[q] == id@;
                        assert(cur[q] != id@);
                    }
                }
            }
            let ghost before = ids@;
            let p = sorted_position(&ids, id);
            ids.insert(p, id.clone());
            proof {
                assert(ids.deep_view() =~= cur.take(p as int) + seq![id@] + cur.skip(p as int))
                    by {
                    assert forall|x: int|
                        0 <= x < ids.deep_view().len() implies ids.deep_view()[x] == (cur.take(
                        p as int,
                    ) + seq![id@] + cur.skip(p as int))[x] by {
                        if x < p {
                            assert(ids@[x] == before[x]);
                        } else if x > p {
                            assert(ids@[x] == before[x - 1]);
                        }
                    }
                }
                lemma_sorted_insert_at(cur, id@, p as int);
                assert(ids.deep_view() == sorted_insert(cur, id@));
            }
            ids
        },
        None => {
            let mut ids: Vec<String> = Vec::new();
            ids.push(id.clone());
            proof {
                assert(!Seq::<Seq<char>>::empty().contains(id@));
                assert(ids.deep_view() =~= sorted_insert(Seq::<Seq<char>>::empty(), id@));
            }
            ids
        },
    }
}

/// The ids stored in an index table under `k`; the empty list when the key
/// is absent.
pub open spec fn index_ids(s: Seq<(String, Vec<String>)>, k: Seq<char>) -> Seq<Seq<char>> {
    match assoc_get(s, k) {
        Some(v) => v.deep_view(),
        None => Seq::empty(),
    }
}

/// Lexicographic order on id strings, by character code.
pub open spec fn lex_le(a: Seq<char>, b: Seq<char>) -> bool
    decreases a.len(),
{
    if a.len() == 0 {
        true
    } else if b.len() == 0 {
        false
    } else if a[0] == b[0] {
        lex_le(a.drop_first(), b.drop_first())
    } else {
        (a[0] as u32) < (b[0] as u32)
    }
}

/// The order is total.
pub proof fn lemma_lex_total(a: Seq<char>, b: Seq<char>)
    ensures
        lex_le(a, b) || lex_le(b, a),
    decreases a.len(),
{
    if a.len() > 0 && b.len() > 0 {
        if a[0] == b[0] {
            lemma_lex_total(a.drop_first(), b.drop_first());
        } else {
            assert(a[0] as u32 != b[0] as u32) by {
                if a[0] as u32 == b[0] as u32 {
                    vstd::utf8::char_u32_cast(a[0], a[0] as u32);
                    vstd::utf8::char_u32_cast(b[0], b[0] as u32);
                }
            }
        }
    }
}

/// The order is transitive.
pub proof fn lemma_lex_trans(a: Seq<char>, b: Seq<char>, c: Seq<char>)
    requires
        lex_le(a, b),
        lex_le(b, c),
    ensures
        lex_le(a, c),
    decreases a.len(),
{
    if a.len() > 0 {
        assert(b.len() > 0);
        assert(c.len() > 0);
        if a[0] == b[0] && b[0] == c[0] {
            lemma_lex_trans(a.drop_first(), b.drop_first(), c.drop_first());
        } else if a[0] == b[0] {
            assert((a[0] as u32) < (c[0] as u32));
            assert(a[0] != c[0]) by {
                vstd::utf8::char_u32_cast(a[0], a[0] as u32);
                vstd::utf8::char_u32_cast(c[0], c[0] as u32);
            }
        } else if b[0] == c[0] {
            assert((a[0] as u32) < (c[0] as u32));
            assert(a[0] != c[0]) by {
                vstd::utf8::char_u32_cast(a[0], a[0] as u32);
                vstd::utf8::char_u32_cast(c[0], c[0] as u32);
            }
        } else {
            assert((a[0] as u32) < (c[0] as u32));
            assert(a[0] != c[0]) by {
                vstd::utf8::char_u32_cast(a[0], a[0] as u32);
                vstd::utf8::char_u32_cast(c[0], c[0] as u32);
            }
        }
    }
}

/// An id list in ascending lexicographic order.
pub open spec fn sorted_ids(ids: Seq<Seq<char>>) -> bool {
    forall|i: int, j: int| 0 <= i < j < ids.len() ==> lex_le(#[trigger] ids[i], #[trigger] ids[j])
}

/// Inserts `id` at its lexicographic position.
pub open spec fn sorted_insert(ids: Seq<Seq<char>>, id: Seq<char>) -> Seq<Seq<char>>
    decreases ids.len(),
{
    if ids.len() == 0 {
        seq![id]
    } else if lex_le(id, ids[0]) {
        seq![id] + ids
    } else {
        seq![ids[0]] + sorted_insert(ids.drop_first(), id)
    }
}

/// What a sorted insertion contains: the old ids and the new one.
pub proof fn lemma_sorted_insert_contains(ids: Seq<Seq<char>>, id: Seq<char>, x: Seq<char>)
    ensures
        sorted_insert(ids, id).contains(x) <==> (ids.contains(x) || x == id),
        sorted_insert(ids, id).len() == ids.len() + 1,
    decreases ids.len(),
{
    let r = sorted_insert(ids, id);
    if ids.len() == 0 {
        assert(r =~= seq![id]);
        if x == id {
            assert(r[0] == x);
        }
        if r.contains(x) {
            let i = choose|i: int| 0 <= i < r.len() && r[i] == x;
        }
    } else if lex_le(id, ids[0]) {
        assert(r =~= seq![id] + ids);
        if x == id {
            assert(r[0] == x);
        }
        if ids.contains(x) {
            let i = choose|i: int| 0 <= i < ids.len() && ids[i] == x;
            assert(r[i + 1] == x);
        }
        if r.contains(x) {
            let i = choose|i: int| 0 <= i < r.len() && r[i] == x;
            if i > 0 {
                assert(ids[i - 1] == x);
            }
        }
    } else {
        lemma_sorted_insert_contains(ids.drop_first(), id, x);
        let tail = sorted_insert(ids.drop_first(), id);
        assert(r =~= seq![ids[0]] + tail);
        if x == ids[0] {
            assert(r[0] == x);
            assert(ids[0] == x);
            assert(ids.contains(x));
        }
        if x == id {
            let i = choose|i: int| 0 <= i < tail.len() && tail[i] == x;
            assert(r[i + 1] == x);
        }
        if ids.contains(x) {
            let i = choose|i: int| 0 <= i < ids.len() && ids[i] == x;
            if i == 0 {
                assert(r[0] == x);
            } else {
                assert(ids.drop_first()[i - 1] == x);
                assert(ids.drop_first().contains(x));
                let q = choose|q: int| 0 <= q < tail.len() && tail[q] == x;
                assert(r[q + 1] == x);
            }
        }
        if r.contains(x) {
            let i = choose|i: int| 0 <= i < r.len() && r[i] == x;
            if i == 0 {
                assert(ids[0] == x);
                assert(ids.contains(x));
            } else {
                assert(tail[i - 1] == x);
                assert(tail.contains(x));
                if ids.drop_first().contains(x) {
                    let q = choose|q: int|
                        0 <= q < ids.drop_first().len() && ids.drop_first()[q] == x;
                    assert(ids[q + 1] == x);
                }
            }
        }
    }
}

/// Sorted insertion of a fresh id keeps the list sorted and duplicate-free.
pub proof fn lemma_sorted_insert_props(ids: Seq<Seq<char>>, id: Seq<char>)
    requires
        sorted_ids(ids),
        no_dup_ids(ids),
        !ids.contains(id),
    ensures
        sorted_ids(sorted_insert(ids, id)),
        no_dup_ids(sorted_insert(ids, id)),
    decreases ids.len(),
{
    let r = sorted_insert(ids, id);
    if ids.len() == 0 {
        assert(r =~= seq![id]);
    } else if lex_le(id, ids[0]) {
        assert(r =~= seq![id] + ids);
        assert forall|i: int, j: int| 0 <= i < j < r.len() implies lex_le(
            #[trigger] r[i],
            #[trigger] r[j],
        ) by {
            if i == 0 {
                assert(r[j] == ids[j - 1]);
                if j - 1 > 0 {
                    assert(lex_le(ids[0], ids[j - 1]));
                    lemma_lex_trans(id, ids[0], ids[j - 1]);
                }
            } else {
                assert(r[i] == ids[i - 1] && r[j] == ids[j - 1]);
            }
        }
        assert forall|i: int, j: int| 0 <= i < j < r.len() implies r[i] != r[j] by {
            if i == 0 {
                assert(r[j] == ids[j - 1]);
                assert(ids.contains(ids[j - 1]));
            } else {
                assert(r[i] == ids[i - 1] && r[j] == ids[j - 1]);
            }
        }
    } else {
        let tail0 = ids.drop_first();
        assert(sorted_ids(tail0)) by {
            assert forall|i: int, j: int| 0 <= i < j < tail0.len() implies lex_le(
                #[trigger] tail0[i],
                #[trigger] tail0[j],
            ) by {
                assert(tail0[i] == ids[i + 1] && tail0[j] == ids[j + 1]);
            }
        }
        assert(no_dup_ids(tail0)) by {
            assert forall|i: int, j: int| 0 <= i < j < tail0.len() implies tail0[i] != tail0[j] by {
                assert(tail0[i] == ids[i + 1] && tail0[j] == ids[j + 1]);
            }
        }
        assert(!tail0.contains(id)) by {
            if tail0.contains(id) {
                let q = choose|q: int| 0 <= q < tail0.len() && tail0[q] == id;
                assert(ids[q + 1] == id);
            }
        }
        lemma_sorted_insert_props(tail0, id);
        let tail = sorted_insert(tail0, id);
        assert(r =~= seq![ids[0]] + tail);
        lemma_lex_total(id, ids[0]);
        assert(lex_le(ids[0], id));
        assert forall|i: int, j: int| 0 <= i < j < r.len() implies lex_le(
            #[trigger] r[i],
            #[trigger] r[j],
        ) by {
            if i == 0 {
                assert(r[j] == tail[j - 1]);
                lemma_sorted_insert_contains(tail0, id, tail[j - 1]);
                if tail[j - 1] == id {
                } else {
                    assert(tail0.contains(tail[j - 1]));
                    let q = choose|q: int| 0 <= q < tail0.len() && tail0[q] == tail[j - 1];
                    assert(ids[q + 1] == tail[j - 1]);
                    assert(lex_le(ids[0], ids[q + 1]));
                }
            } else {
                assert(r[i] == tail[i - 1] && r[j] == tail[j - 1]);
            }
        }
        assert forall|i: int, j: int| 0 <= i < j < r.len() implies r[i] != r[j] by {
            if i == 0 {
                assert(r[j] == tail[j - 1]);
                lemma_sorted_insert_contains(tail0, id, tail[j - 1]);
                if tail[j - 1] == id {
                    assert(ids.contains(ids[0]));
                } else {
                    assert(tail0.contains(tail[j - 1]));
                    let q = choose|q: int| 0 <= q < tail0.len() && tail0[q] == tail[j - 1];
                    assert(ids[q + 1] == tail[j - 1]);
                }
            } else {
                assert(r[i] == tail[i - 1] && r[j] == tail[j - 1]);
            }
        }
    }
}

/// Appends `id` unless it is already present, keeping first-occurrence
/// order: the update for de-duplicated collections such as tag lists and
/// path lists, where insertion order is the stable order.
pub open spec fn push_if_missing(ids: Seq<Seq<char>>, id: Seq<char>) -> Seq<Seq<char>> {
    if ids.contains(id) {
        ids
    } else {
        ids.push(id)
    }
}

/// Conditional push keeps a list duplicate-free.
pub proof fn lemma_push_if_missing_no_dups(ids: Seq<Seq<char>>, id: Seq<char>)
    requires
        no_dup_ids(ids),
    ensures
        no_dup_ids(push_if_missing(ids, id)),
{
    if !ids.contains(id) {
        let t = ids.push(id);
        assert forall|i: int, j: int| 0 <= i < j < t.len() implies t[i] != t[j] by {
            if j < ids.len() {
                assert(ids[i] != ids[j]);
            } else {
                assert(t[j] == id);
                assert(ids[i] == t[i]);
            }
        }
    }
}

/// Appends `id` to an id list unless it is already present, at its sorted
/// position: the additive, idempotent index update, keeping each index entry
/// a deterministically ordered list.
pub open spec fn id_list_add(ids: Seq<Seq<char>>, id: Seq<char>) -> Seq<Seq<char>> {
    if ids.contains(id) {
        ids
    } else {
        sorted_insert(ids, id)
    }
}

/// Adding an id twice is the same as adding it once: index growth is
/// idempotent.
pub proof fn lemma_id_list_add_idempotent(ids: Seq<Seq<char>>, id: Seq<char>)
    ensures
        id_list_add(id_list_add(ids, id), id) == id_list_add(ids, id),
{
    if !ids.contains(id) {
        lemma_sorted_insert_contains(ids, id, id);
        assert(id_list_add(ids, id).contains(id));
    }
}

/// Adding an id to a sorted, duplicate-free list keeps it sorted and
/// duplicate-free, and afterwards the list contains the id exactly once.
pub proof fn lemma_id_list_add_no_dups(ids: Seq<Seq<char>>, id: Seq<char>)
    requires
        no_dup_ids(ids),
        sorted_ids(ids),
    ensures
        no_dup_ids(id_list_add(ids, id)),
        sorted_ids(id_list_add(ids, id)),
        id_list_count(id_list_add(ids, id), id) == 1,
{
    lemma_id_list_count_no_dups(ids, id);
    if ids.contains(id) {
    } else {
        lemma_sorted_insert_props(ids, id);
        lemma_sorted_insert_contains(ids, id, id);
        lemma_id_list_count_no_dups(id_list_add(ids, id), id);
    }
}

/// How many times `id` occurs in an id list.
pub open spec fn id_list_count(ids: Seq<Seq<char>>, id: Seq<char>) -> nat
    decreases ids.len(),
{
    if ids.len() == 0 {
        0
    } else {
        (if ids.last() == id {
            1nat
        } else {
            0nat
        }) + id_list_count(ids.drop_last(), id)
    }
}

/// In a duplicate-free list the count of a present id is one, of an absent
/// id zero.
pub proof fn lemma_id_list_count_no_dups(ids: Seq<Seq<char>>, id: Seq<char>)
    requires
        no_dup_ids(ids),
    ensures
        ids.contains(id) ==> id_list_count(ids, id) == 1,
        !ids.contains(id) ==> id_list_count(ids, id) == 0,
    decreases ids.len(),
{
    if ids.len() > 0 {
        let head = ids.drop_last();
        assert forall|i: int, j: int| 0 <= i < j < head.len() implies head[i] != head[j] by {
            assert(ids[i] != ids[j]);
        }
        lemma_id_list_count_no_dups(head, id);
        if ids.last() == id {
            assert(!head.contains(id)) by {
                if head.contains(id) {
                    let i = choose|i: int| 0 <= i < head.len() && head[i] == id;
                    assert(ids[i] == ids[ids.len() - 1]);
                }
            }
        } else {
            if ids.contains(id) {
                let i = choose|i: int| 0 <= i < ids.len() && ids[i] == id;
                assert(head[i] == id);
                assert(head.contains(id));
            } else {
                assert(!head.contains(id)) by {
                    if head.contains(id) {
                        let i = choose|i: int| 0 <= i < head.len() && head[i] == id;
                        assert(ids[i] == id);
                    }
                }
            }
        }
    }
}

/// An id list contains the id just added to it.
pub proof fn lemma_id_list_add_contains(ids: Seq<Seq<char>>, id: Seq<char>)
    ensures
        id_list_add(ids, id).contains(id),
{
    if !ids.contains(id) {
        lemma_sorted_insert_contains(ids, id, id);
    }
}

/// Adding an id never removes another: containment is preserved.
pub proof fn lemma_id_list_contains_add(ids: Seq<Seq<char>>, id: Seq<char>, x: Seq<char>)
    requires
        ids.contains(x),
    ensures
        id_list_add(ids, id).contains(x),
{
    if !ids.contains(id) {
        lemma_sorted_insert_contains(ids, id, x);
    }
}

/// The tag-index entry for `t` after the batch's first `upto` records are
/// folded over `base`: each record whose pattern carries `t` adds its id.
pub open spec fn batch_tag_fold(
    records: Seq<(Pattern, Vec<i64>)>,
    upto: int,
    t: Seq<char>,
    base: Seq<Seq<char>>,
) -> Seq<Seq<char>>
    decreases upto,
{
    if upto <= 0 {
        base
    } else {
        let prev = batch_tag_fold(records, upto - 1, t, base);
        if records[upto - 1].0@.tags.contains(t) {
            id_list_add(prev, records[upto - 1].0@.id)
        } else {
            prev
        }
    }
}

/// The file-path-index entry for `t` after the batch's first `upto` records
/// are folded over `base`.
pub open spec fn batch_path_fold(
    records: Seq<(Pattern, Vec<i64>)>,
    upto: int,
    t: Seq<char>,
    base: Seq<Seq<char>>,
) -> Seq<Seq<char>>
    decreases upto,
{
    if upto <= 0 {
        base
    } else {
        let prev = batch_path_fold(records, upto - 1, t, base);
        if records[upto - 1].0@.file_paths.contains(t) {
            id_list_add(prev, records[upto - 1].0@.id)
        } else {
            prev
        }
    }
}

/// A tag no record carries leaves its index entry untouched.
pub proof fn lemma_batch_tag_fold_untouched(
    records: Seq<(Pattern, Vec<i64>)>,
    upto: int,
    t: Seq<char>,
    base: Seq<Seq<char>>,
)
    requires
        0 <= upto <= records.len(),
        forall|i: int| 0 <= i < upto ==> !(#[trigger] records[i].0@.tags.contains(t)),
    ensures
        batch_tag_fold(records, upto, t, base) == base,
    decreases upto,
{
    if upto > 0 {
        lemma_batch_tag_fold_untouched(records, upto - 1, t, base);
    }
}

/// A path no record touches leaves its index entry untouched.
pub proof fn lemma_batch_path_fold_untouched(
    records: Seq<(Pattern, Vec<i64>)>,
    upto: int,
    t: Seq<char>,
    base: Seq<Seq<char>>,
)
    requires
        0 <= upto <= records.len(),
        forall|i: int| 0 <= i < upto ==> !(#[trigger] records[i].0@.file_paths.contains(t)),
    ensures
        batch_path_fold(records, upto, t, base) == base,
    decreases upto,
{
    if upto > 0 {
        lemma_batch_path_fold_untouched(records, upto - 1, t, base);
    }
}

/// The store `post` is `pre` with `pattern` and its embedding freshly
/// inserted: the three record tables rebound at the pattern's id and
/// untouched elsewhere, and the id added once to every index entry the
/// pattern names.
pub open spec fn inserted_state(
    pre: VectorStore,
    post: VectorStore,
    pattern: crate::pattern_extractor::PatternView,
    embedding: Seq<i64>,
) -> bool {
    &&& embedding.len() == EMBEDDING_DIM
    &&& post.spec_embedding(pattern.id) matches Some(rec) && rec@.vector == embedding && rec@.norm
        == crate::similarity::norm_spec(embedding)
    &&& post.spec_pattern(pattern.id) matches Some(p) && p@ == pattern
    &&& post.spec_metrics(pattern.id) matches Some(m) && m@ == fresh_metrics_view()
    &&& forall|k: Seq<char>|
        k != pattern.id ==> #[trigger] post.spec_embedding(k) == pre.spec_embedding(k)
    &&& forall|k: Seq<char>|
        k != pattern.id ==> #[trigger] post.spec_pattern(k) == pre.spec_pattern(k)
    &&& forall|k: Seq<char>|
        k != pattern.id ==> #[trigger] post.spec_metrics(k) == pre.spec_metrics(k)
    &&& forall|t: Seq<char>|
        #[trigger] post.spec_tag_ids(t) == if pattern.tags.contains(t) {
            id_list_add(pre.spec_tag_ids(t), pattern.id)
        } else {
            pre.spec_tag_ids(t)
        }
    &&& forall|t: Seq<char>|
        #[trigger] post.spec_path_ids(t) == if pattern.file_paths.contains(t) {
            id_list_add(pre.spec_path_ids(t), pattern.id)
        } else {
            pre.spec_path_ids(t)
        }
}

/// Persistent, transactional storage of the five correlated tables.
pub struct VectorStore {
    db: redb::Database,
    embeddings: Vec<(String, EmbeddingRecord)>,
    metadata: Vec<(String, Pattern)>,
    metrics: Vec<(String, PerformanceMetrics)>,
    tag_index: Vec<(String, Vec<String>)>,
    path_index: Vec<(String, Vec<String>)>,
}

impl VectorStore {
    /// The embedding record stored under `id`.
    pub closed spec fn spec_embedding(self, id: Seq<char>) -> Option<EmbeddingRecord> {
        assoc_get(self.embeddings@, id)
    }

    /// The pattern stored under `id`.
    pub closed spec fn spec_pattern(self, id: Seq<char>) -> Option<Pattern> {
        assoc_get(self.metadata@, id)
    }

    /// The metrics entry stored under `id`.
    pub closed spec fn spec_metrics(self, id: Seq<char>) -> Option<PerformanceMetrics> {
        assoc_get(self.metrics@, id)
    }

    /// The ids indexed under a tag.
    pub closed spec fn spec_tag_ids(self, tag: Seq<char>) -> Seq<Seq<char>> {
        index_ids(self.tag_index@, tag)
    }

    /// The ids indexed under a file path.
    pub closed spec fn spec_path_ids(self, path: Seq<char>) -> Seq<Seq<char>> {
        index_ids(self.path_index@, path)
    }

    /// All stored pattern ids, in insertion order.
    pub closed spec fn spec_pattern_ids(self) -> Seq<Seq<char>> {
        Seq::new(self.metadata@.len(), |i: int| self.metadata@[i].0@)
    }

    /// The store's invariant: unique keys everywhere, one embedding and one
    /// metrics entry per stored pattern, well-formed stored records, and
    /// duplicate-free index lists.
    pub closed spec fn wf(self) -> bool {
        &&& assoc_keys_unique(self.embeddings@)
        &&& assoc_keys_unique(self.metadata@)
        &&& assoc_keys_unique(self.metrics@)
        &&& assoc_keys_unique(self.tag_index@)
        &&& assoc_keys_unique(self.path_index@)
        &&& forall|k: Seq<char>|
            (#[trigger] assoc_get(self.embeddings@, k)) is Some <==> assoc_get(
                self.metadata@,
                k,
            ) is Some
        &&& forall|k: Seq<char>|
            (#[trigger] assoc_get(self.metadata@, k)) is Some ==> assoc_get(
                self.metrics@,
                k,
            ) is Some
        &&& forall|k: Seq<char>|
            (#[trigger] assoc_get(self.embeddings@, k)) matches Some(r) ==> embedding_record_wf(
                r@,
            )
        &&& forall|k: Seq<char>|
            (#[trigger] assoc_get(self.metrics@, k)) matches Some(m) ==> metrics_wf(m@)
        &&& forall|k: Seq<char>| no_dup_ids(#[trigger] index_ids(self.tag_index@, k))
        &&& forall|k: Seq<char>| no_dup_ids(#[trigger] index_ids(self.path_index@, k))
        &&& forall|k: Seq<char>| sorted_ids(#[trigger] index_ids(self.tag_index@, k))
        &&& forall|k: Seq<char>| sorted_ids(#[trigger] index_ids(self.path_index@, k))
    }

    /// Opens the store file at `path`, creating it and its five tables when
    /// absent; opening an existing store does not erase or rewrite data —
    /// the stored rows are only read, decoded and rebuilt into the in-memory
    /// model (keeping each record's stored creation time, version and
    /// metrics), skipping any row that is malformed or missing its other
    /// half.  Fails with a storage error when the file cannot be opened.
    pub fn open(path: &str) -> (r: Result<VectorStore, TemporalAIError>)
        ensures
            r matches Ok(s) ==> s.wf(),
            r matches Err(e) ==> e is DatabaseError,
    {
        proof {
            reveal_strlit("embeddings_v1");
            reveal_strlit("metadata_v1");
            reveal_strlit("metrics_v1");
            reveal_strlit("file_path_idx_v1");
            reveal_strlit("tag_idx_v1");
        }
        let mut tables: Vec<String> = Vec::new();
        tables.push("embeddings_v1".to_owned());
        tables.push("metadata_v1".to_owned());
        tables.push("metrics_v1".to_owned());
        tables.push("file_path_idx_v1".to_owned());
        tables.push("tag_idx_v1".to_owned());
        let db = match crate::storage::db_create(path, &tables) {
            Ok(db) => db,
            Err(msg) => {
                return Err(TemporalAIError::DatabaseError(msg));
            },
        };
        let emb_rows = match crate::storage::db_load_rows(&db, "embeddings_v1") {
            Ok(r) => r,
            Err(msg) => {
                return Err(TemporalAIError::DatabaseError(msg));
            },
        };
        let meta_rows = match crate::storage::db_load_rows(&db, "metadata_v1") {
            Ok(r) => r,
            Err(msg) => {
                return Err(TemporalAIError::DatabaseError(msg));
            },
        };
        let met_rows = match crate::storage::db_load_rows(&db, "metrics_v1") {
            Ok(r) => r,
            Err(msg) => {
                return Err(TemporalAIError::DatabaseError(msg));
            },
        };
        let mut store = VectorStore {
            db,
            embeddings: Vec::new(),
            metadata: Vec::new(),
            metrics: Vec::new(),
            tag_index: Vec::new(),
            path_index: Vec::new(),
        };
        let mut i: usize = 0;
        while i < meta_rows.len()
            invariant
                store.wf(),
            decreases meta_rows@.len() - i,
        {
            match decode_pattern_row(&meta_rows[i].1) {
                Some(pattern) => match find_row(&emb_rows, &pattern.id) {
                    Some(data) => match decode_embedding_row(data) {
                        Some(decoded) => {
                            let (vector, created_at, version) = decoded;
                            if vector.len() == EMBEDDING_DIM {
                                let record = EmbeddingRecord::with_metadata(
                                    vector,
                                    created_at,
                                    version,
                                );
                                store.insert_model(&pattern, record);
                                match find_row(&met_rows, &pattern.id) {
                                    Some(mdata) => match decode_metrics_row(mdata) {
                                        Some(m) => {
                                            store.set_metrics_model(pattern.id.clone(), m);
                                        },
                                        None => {},
                                    },
                                    None => {},
                                }
                            }
                        },
                        None => {},
                    },
                    None => {},
                },
                None => {},
            }
            i = i + 1;
        }
        Ok(store)
    }

    /// The stored embedding vector for `pattern_id`; `None` when the id is
    /// absent — a normal case, not an error.
    pub fn get_embedding(&self, pattern_id: &str) -> (r: Result<
        Option<Vec<i64>>,
        TemporalAIError,
    >)
        ensures
            r matches Ok(opt) && match self.spec_embedding(pattern_id@) {
                Some(rec) => opt matches Some(v) && v@ == rec@.vector,
                None => opt is None,
            },
    {
        let key: String = pattern_id.to_owned();
        match assoc_find_index(&self.embeddings, &key) {
            Some(i) => {
                let v = self.embeddings[i].1.vector.clone();
                proof {
                    assert(v@ =~= self.embeddings@[i as int].1.vector@);
                }
                Ok(Some(v))
            },
            None => Ok(None),
        }
    }

    /// The stored pattern for `pattern_id`; `None` when the id is absent.
    pub fn get_pattern(&self, pattern_id: &str) -> (r: Result<Option<Pattern>, TemporalAIError>)
        ensures
            r matches Ok(opt) && match self.spec_pattern(pattern_id@) {
                Some(stored) => opt matches Some(p) && p@ == stored@,
                None => opt is None,
            },
    {
        let key: String = pattern_id.to_owned();
        match assoc_find_index(&self.metadata, &key) {
            Some(i) => Ok(Some(self.metadata[i].1.clone())),
            None => Ok(None),
        }
    }

    /// The stored metrics for `pattern_id`; `None` when the id is absent.
    pub fn get_metrics(&self, pattern_id: &str) -> (r: Result<
        Option<PerformanceMetrics>,
        TemporalAIError,
    >)
        requires
            self.wf(),
        ensures
            r matches Ok(opt) && match self.spec_metrics(pattern_id@) {
                Some(stored) => opt matches Some(m) && m@ == stored@ && metrics_wf(m@),
                None => opt is None,
            },
    {
        let key: String = pattern_id.to_owned();
        match assoc_find_index(&self.metrics, &key) {
            Some(i) => Ok(Some(self.metrics[i].1.clone())),
            None => Ok(None),
        }
    }

    /// Embedding and pattern fetched from one snapshot; `None` when either
    /// half is absent.
    pub fn get_embedding_and_pattern(&self, pattern_id: &str) -> (r: Result<
        Option<(Vec<i64>, Pattern)>,
        TemporalAIError,
    >)
        requires
            self.wf(),
        ensures
            r matches Ok(opt) && match opt {
                Some((v, p)) => {
                    &&& self.spec_embedding(pattern_id@) matches Some(rec) && v@ == rec@.vector
                        && bounded_vector(v@) && v@.len() == EMBEDDING_DIM
                    &&& self.spec_pattern(pattern_id@) matches Some(stored) && p@ == stored@
                },
                None => self.spec_embedding(pattern_id@) is None || self.spec_pattern(
                    pattern_id@,
                ) is None,
            },
    {
        let key: String = pattern_id.to_owned();
        let ei = match assoc_find_index(&self.embeddings, &key) {
            Some(i) => i,
            None => {
                return Ok(None);
            },
        };
        let pi = match assoc_find_index(&self.metadata, &key) {
            Some(i) => i,
            None => {
                return Ok(None);
            },
        };
        let v = self.embeddings[ei].1.vector.clone();
        proof {
            assert(v@ =~= self.embeddings@[ei as int].1.vector@);
        }
        let p = self.metadata[pi].1.clone();
        Ok(Some((v, p)))
    }

    /// All stored pattern ids, for a full scan.
    pub fn list_patterns(&self) -> (r: Result<Vec<String>, TemporalAIError>)
        ensures
            r matches Ok(ids) && ids.deep_view() == self.spec_pattern_ids(),
    {
        let mut ids: Vec<String> = Vec::new();
        let mut i: usize = 0;
        while i < self.metadata.len()
            invariant
                0 <= i <= self.metadata@.len(),
                ids@.len() == i,
                forall|j: int| 0 <= j < i ==> #[trigger] ids.deep_view()[j] == self.metadata@[j].0@,
            decreases self.metadata@.len() - i,
        {
            let ghost prev = ids.deep_view();
            ids.push(self.metadata[i].0.clone());
            proof {
                assert(ids.deep_view() =~= prev.push(self.metadata@[i as int].0@));
            }
            i = i + 1;
        }
        proof {
            assert(ids.deep_view() =~= self.spec_pattern_ids());
        }
        Ok(ids)
    }

    /// The ids indexed under `tag`; the empty list for an unknown tag.
    pub fn find_by_tag(&self, tag: &str) -> (r: Result<Vec<String>, TemporalAIError>)
        ensures
            r matches Ok(ids) && ids.deep_view() == self.spec_tag_ids(tag@),
    {
        let key: String = tag.to_owned();
        match assoc_find_index(&self.tag_index, &key) {
            Some(i) => {
                let ids = self.tag_index[i].1.clone();
                proof {
                    assert(ids.deep_view() =~= self.tag_index@[i as int].1.deep_view());
                }
                Ok(ids)
            },
            None => {
                let ids: Vec<String> = Vec::new();
                proof {
                    assert(ids.deep_view() =~= Seq::<Seq<char>>::empty());
                }
                Ok(ids)
            },
        }
    }

    /// The ids indexed under `file_path`; the empty list for an unknown path.
    pub fn find_by_file_path(&self, file_path: &str) -> (r: Result<Vec<String>, TemporalAIError>)
        ensures
            r matches Ok(ids) && ids.deep_view() == self.spec_path_ids(file_path@),
    {
        let key: String = file_path.to_owned();
        match assoc_find_index(&self.path_index, &key) {
            Some(i) => {
                let ids = self.path_index[i].1.clone();
                proof {
                    assert(ids.deep_view() =~= self.path_index@[i as int].1.deep_view());
                }
                Ok(ids)
            },
            None => {
                let ids: Vec<String> = Vec::new();
                proof {
                    assert(ids.deep_view() =~= Seq::<Seq<char>>::empty());
                }
                Ok(ids)
            },
        }
    }

    /// Inserts one pattern with its embedding: writes the embedding record,
    /// the pattern metadata, freshly zeroed metrics, and appends the pattern
    /// id to every tag-index and file-path-index entry the pattern names,
    /// additively and idempotently.  A vector of the wrong length is
    /// rejected with a dimension error and the store is left unchanged.
    #[verifier::rlimit(60)]
    pub fn insert(&mut self, pattern: &Pattern, embedding: Vec<i64>) -> (r: Result<
        (),
        TemporalAIError,
    >)
        requires
            old(self).wf(),
            bounded_vector(embedding@),
        ensures
            final(self).wf(),
            match r {
                Ok(()) => inserted_state(*old(self), *final(self), pattern@, embedding@),
                Err(e) => match e {
                    TemporalAIError::DimensionMismatch { expected, actual } => {
                        &&& expected == EMBEDDING_DIM && actual == embedding@.len()
                        &&& embedding@.len() != EMBEDDING_DIM
                        &&& *final(self) == *old(self)
                    },
                    TemporalAIError::DatabaseError(_) => *final(self) == *old(self),
                    _ => false,
                },
            },
            embedding@.len() != EMBEDDING_DIM ==> (r matches Err(e)
                && e is DimensionMismatch),
    {
        if embedding.len() != EMBEDDING_DIM {
            return Err(
                TemporalAIError::DimensionMismatch {
                    expected: EMBEDDING_DIM,
                    actual: embedding.len(),
                },
            );
        }
        let record = EmbeddingRecord::new(embedding);
        proof {
            reveal_strlit("embeddings_v1");
            reveal_strlit("metadata_v1");
            reveal_strlit("metrics_v1");
            reveal_strlit("file_path_idx_v1");
            reveal_strlit("tag_idx_v1");
        }
        let mut rows: Vec<(String, String, Vec<u8>)> = Vec::new();
        rows.push(("embeddings_v1".to_owned(), pattern.id.clone(), encode_embedding_row(&record)));
        rows.push(("metadata_v1".to_owned(), pattern.id.clone(), encode_pattern_row(pattern)));
        rows.push((
            "metrics_v1".to_owned(),
            pattern.id.clone(),
            encode_metrics_row(&PerformanceMetrics::new()),
        ));
        let mut ri: usize = 0;
        while ri < pattern.file_paths.len()
            invariant
                forall|q: int| 0 <= q < rows@.len() ==> (#[trigger] rows@[q].0@).len() > 0,
            decreases pattern.file_paths@.len() - ri,
        {
            proof {
                reveal_strlit("file_path_idx_v1");
            }
            let ids = updated_ids(&self.path_index, &pattern.file_paths[ri], &pattern.id);
            rows.push((
                "file_path_idx_v1".to_owned(),
                pattern.file_paths[ri].clone(),
                encode_id_list_row(&ids),
            ));
            ri = ri + 1;
        }
        let mut ti: usize = 0;
        while ti < pattern.tags.len()
            invariant
                forall|q: int| 0 <= q < rows@.len() ==> (#[trigger] rows@[q].0@).len() > 0,
            decreases pattern.tags@.len() - ti,
        {
            proof {
                reveal_strlit("tag_idx_v1");
            }
            let ids = updated_ids(&self.tag_index, &pattern.tags[ti], &pattern.id);
            rows.push(("tag_idx_v1".to_owned(), pattern.tags[ti].clone(), encode_id_list_row(&ids)));
            ti = ti + 1;
        }
        match crate::storage::db_put_rows(&self.db, &rows) {
            Ok(()) => {},
            Err(msg) => {
                return Err(TemporalAIError::DatabaseError(msg));
            },
        }
        self.insert_model(pattern, record);
        Ok(())
    }

    /// Applies one pattern's insertion to the in-memory tables; the caller
    /// has already committed the matching rows to storage.
    fn insert_model(&mut self, pattern: &Pattern, record: EmbeddingRecord)
        requires
            old(self).wf(),
            embedding_record_wf(record@),
        ensures
            final(self).wf(),
            inserted_state(*old(self), *final(self), pattern@, record@.vector),
    {
        assoc_upsert(&mut self.embeddings, pattern.id.clone(), record);
        assoc_upsert(&mut self.metadata, pattern.id.clone(), pattern.clone());
        assoc_upsert(&mut self.metrics, pattern.id.clone(), PerformanceMetrics::new());

        let ghost emb1 = self.embeddings@;
        let ghost meta1 = self.metadata@;
        let ghost met1 = self.metrics@;
        let ghost tag0 = self.tag_index@;
        let ghost path0 = self.path_index@;
        let mut i: usize = 0;
        while i < pattern.file_paths.len()
            invariant
                0 <= i <= pattern.file_paths@.len(),
                self.embeddings@ == emb1,
                self.metadata@ == meta1,
                self.metrics@ == met1,
                self.tag_index@ == tag0,
                assoc_keys_unique(self.path_index@),
                forall|t: Seq<char>|
                    #[trigger] index_ids(self.path_index@, t) == if exists|j: int|
                        0 <= j < i && pattern@.file_paths[j] == t {
                        id_list_add(index_ids(path0, t), pattern@.id)
                    } else {
                        index_ids(path0, t)
                    },
                forall|t: Seq<char>| no_dup_ids(#[trigger] index_ids(path0, t)),
                forall|t: Seq<char>| sorted_ids(#[trigger] index_ids(path0, t)),
            decreases pattern.file_paths@.len() - i,
        {
            let ghost before = self.path_index@;
            update_index_entry(&mut self.path_index, &pattern.file_paths[i], &pattern.id);
            proof {
                let key = pattern@.file_paths[i as int];
                lemma_id_list_add_idempotent(index_ids(path0, key), pattern@.id);
                assert forall|t: Seq<char>| #[trigger]
                    index_ids(self.path_index@, t) == if exists|j: int|
                        0 <= j < i + 1 && pattern@.file_paths[j] == t {
                        id_list_add(index_ids(path0, t), pattern@.id)
                    } else {
                        index_ids(path0, t)
                    } by {
                    if t == key {
                        assert(pattern@.file_paths[i as int] == t);
                    } else {
                        assert(index_ids(self.path_index@, t) == index_ids(before, t));
                        assert((exists|j: int| 0 <= j < i + 1 && pattern@.file_paths[j] == t)
                            == (exists|j: int| 0 <= j < i && pattern@.file_paths[j] == t));
                    }
                }
            }
            i = i + 1;
        }

        let ghost path_done = self.path_index@;
        let mut i2: usize = 0;
        while i2 < pattern.tags.len()
            invariant
                0 <= i2 <= pattern.tags@.len(),
                self.embeddings@ == emb1,
                self.metadata@ == meta1,
                self.metrics@ == met1,
                self.path_index@ == path_done,
                assoc_keys_unique(self.tag_index@),
                forall|t: Seq<char>|
                    #[trigger] index_ids(self.tag_index@, t) == if exists|j: int|
                        0 <= j < i2 && pattern@.tags[j] == t {
                        id_list_add(index_ids(tag0, t), pattern@.id)
                    } else {
                        index_ids(tag0, t)
                    },
                forall|t: Seq<char>| no_dup_ids(#[trigger] index_ids(tag0, t)),
                forall|t: Seq<char>| sorted_ids(#[trigger] index_ids(tag0, t)),
            decreases pattern.tags@.len() - i2,
        {
            let ghost before = self.tag_index@;
            update_index_entry(&mut self.tag_index, &pattern.tags[i2], &pattern.id);
            proof {
                let key = pattern@.tags[i2 as int];
                lemma_id_list_add_idempotent(index_ids(tag0, key), pattern@.id);
                assert forall|t: Seq<char>| #[trigger]
                    index_ids(self.tag_index@, t) == if exists|j: int|
                        0 <= j < i2 + 1 && pattern@.tags[j] == t {
                        id_list_add(index_ids(tag0, t), pattern@.id)
                    } else {
                        index_ids(tag0, t)
                    } by {
                    if t == key {
                        assert(pattern@.tags[i2 as int] == t);
                    } else {
                        assert(index_ids(self.tag_index@, t) == index_ids(before, t));
                        assert((exists|j: int| 0 <= j < i2 + 1 && pattern@.tags[j] == t)
                            == (exists|j: int| 0 <= j < i2 && pattern@.tags[j] == t));
                    }
                }
            }
            i2 = i2 + 1;
        }

        proof {
            assert forall|t: Seq<char>| #[trigger]
                index_ids(self.tag_index@, t) == if pattern@.tags.contains(t) {
                    id_list_add(index_ids(tag0, t), pattern@.id)
                } else {
                    index_ids(tag0, t)
                } by {
                assert(pattern@.tags.contains(t) == (exists|j: int|
                    0 <= j < pattern@.tags.len() && pattern@.tags[j] == t));
            }
            assert forall|t: Seq<char>| #[trigger]
                index_ids(self.path_index@, t) == if pattern@.file_paths.contains(t) {
                    id_list_add(index_ids(path0, t), pattern@.id)
                } else {
                    index_ids(path0, t)
                } by {
                assert(pattern@.file_paths.contains(t) == (exists|j: int|
                    0 <= j < pattern@.file_paths.len() && pattern@.file_paths[j] == t));
            }
            assert forall|t: Seq<char>|
                no_dup_ids(#[trigger] index_ids(self.tag_index@, t)) && sorted_ids(
                    index_ids(self.tag_index@, t),
                ) by {
                lemma_id_list_add_no_dups(index_ids(tag0, t), pattern@.id);
            }
            assert forall|t: Seq<char>|
                no_dup_ids(#[trigger] index_ids(self.path_index@, t)) && sorted_ids(
                    index_ids(self.path_index@, t),
                ) by {
                lemma_id_list_add_no_dups(index_ids(path0, t), pattern@.id);
            }
            let id = pattern@.id;
            assert(metrics_wf(fresh_metrics_view()));
            assert forall|k: Seq<char>|
                (#[trigger] assoc_get(self.embeddings@, k)) is Some <==> assoc_get(
                    self.metadata@,
                    k,
                ) is Some by {
                if k != id {
                    assert(assoc_get(old(self).embeddings@, k) is Some <==> assoc_get(
                        old(self).metadata@,
                        k,
                    ) is Some);
                }
            }
            assert forall|k: Seq<char>|
                (#[trigger] assoc_get(self.metadata@, k)) is Some implies assoc_get(
                    self.metrics@,
                    k,
                ) is Some by {
                if k != id {
                    assert(assoc_get(old(self).metadata@, k) is Some ==> assoc_get(
                        old(self).metrics@,
                        k,
                    ) is Some);
                }
            }
            assert forall|k: Seq<char>| (#[trigger] assoc_get(self.embeddings@, k)) matches Some(r)
                ==> embedding_record_wf(r@) by {
                if k != id {
                    assert(assoc_get(self.embeddings@, k) == assoc_get(old(self).embeddings@, k));
                }
            }
            assert forall|k: Seq<char>| (#[trigger] assoc_get(self.metrics@, k)) matches Some(m)
                ==> metrics_wf(m@) by {
                if k != id {
                    assert(assoc_get(self.metrics@, k) == assoc_get(old(self).metrics@, k));
                }
            }
        }
    }

    /// Inserts many patterns as one all-or-nothing batch: when any vector
    /// has the wrong length, the whole batch is rejected and the store is
    /// left unchanged; otherwise every record is inserted as by [`Self::insert`],
    /// later records overriding earlier ones with the same id.
    pub fn insert_batch(&mut self, records: &Vec<(Pattern, Vec<i64>)>) -> (r: Result<
        (),
        TemporalAIError,
    >)
        requires
            old(self).wf(),
            forall|i: int| 0 <= i < records@.len() ==> bounded_vector(#[trigger] records@[i].1@),
        ensures
            final(self).wf(),
            match r {
                Ok(()) => {
                    &&& forall|i: int|
                        0 <= i < records@.len() ==> (#[trigger] final(self).spec_pattern(
                            records@[i].0@.id,
                        )) is Some
                    &&& forall|i: int|
                        0 <= i < records@.len() && (forall|j: int|
                            i < j < records@.len() ==> records@[j].0@.id != records@[i].0@.id)
                            ==> {
                            &&& (#[trigger] final(self).spec_pattern(records@[i].0@.id))
                                matches Some(p) && p@ == records@[i].0@
                            &&& final(self).spec_embedding(records@[i].0@.id) matches Some(rec)
                                && rec@.vector == records@[i].1@
                            &&& final(self).spec_metrics(records@[i].0@.id) matches Some(m) && m@
                                == fresh_metrics_view()
                        }
                    &&& forall|k: Seq<char>|
                        (forall|i: int| 0 <= i < records@.len() ==> records@[i].0@.id != k) ==> {
                            &&& #[trigger] final(self).spec_pattern(k) == old(self).spec_pattern(k)
                            &&& final(self).spec_embedding(k) == old(self).spec_embedding(k)
                            &&& final(self).spec_metrics(k) == old(self).spec_metrics(k)
                        }
                    &&& forall|i: int, t: Seq<char>|
                        0 <= i < records@.len() && (#[trigger] records@[i].0@.tags.contains(t))
                            ==> final(self).spec_tag_ids(t).contains(records@[i].0@.id)
                    &&& forall|i: int, t: Seq<char>|
                        0 <= i < records@.len() && (#[trigger] records@[i].0@.file_paths.contains(
                            t,
                        )) ==> final(self).spec_path_ids(t).contains(records@[i].0@.id)
                    &&& forall|t: Seq<char>|
                        #[trigger] final(self).spec_tag_ids(t) == batch_tag_fold(
                            records@,
                            records@.len() as int,
                            t,
                            old(self).spec_tag_ids(t),
                        )
                    &&& forall|t: Seq<char>|
                        #[trigger] final(self).spec_path_ids(t) == batch_path_fold(
                            records@,
                            records@.len() as int,
                            t,
                            old(self).spec_path_ids(t),
                        )
                    &&& forall|t: Seq<char>|
                        (forall|i: int|
                            0 <= i < records@.len() ==> !(#[trigger] records@[i].0@.tags.contains(
                                t,
                            ))) ==> (#[trigger] final(self).spec_tag_ids(t))
                            == old(self).spec_tag_ids(t)
                    &&& forall|t: Seq<char>|
                        (forall|i: int|
                            0 <= i < records@.len() ==> !(
                            #[trigger] records@[i].0@.file_paths.contains(t)))
                            ==> (#[trigger] final(self).spec_path_ids(t))
                            == old(self).spec_path_ids(t)
                },
                Err(e) => match e {
                    TemporalAIError::DimensionMismatch { .. } => {
                        &&& *final(self) == *old(self)
                        &&& exists|i: int|
                            0 <= i < records@.len() && #[trigger] records@[i].1@.len()
                                != EMBEDDING_DIM
                    },
                    TemporalAIError::DatabaseError(_) => *final(self) == *old(self),
                    _ => false,
                },
            },
            (exists|i: int|
                0 <= i < records@.len() && #[trigger] records@[i].1@.len() != EMBEDDING_DIM)
                ==> (r matches Err(e) && e is DimensionMismatch),
    {
        let mut v: usize = 0;
        while v < records.len()
            invariant
                0 <= v <= records@.len(),
                *self == *old(self),
                self.wf(),
                forall|i: int| 0 <= i < v ==> #[trigger] records@[i].1@.len() == EMBEDDING_DIM,
            decreases records@.len() - v,
        {
            if records[v].1.len() != EMBEDDING_DIM {
                return Err(
                    TemporalAIError::DimensionMismatch {
                        expected: EMBEDDING_DIM,
                        actual: records[v].1.len(),
                    },
                );
            }
            v = v + 1;
        }

        let mut scratch_tags = copy_index(&self.tag_index);
        let mut scratch_paths = copy_index(&self.path_index);
        proof {
            assert forall|a: int, b: int|
                0 <= a < b < scratch_tags@.len() implies scratch_tags@[a].0@
                != scratch_tags@[b].0@ by {
                assert(self.tag_index@[a].0@ != self.tag_index@[b].0@);
            }
            assert forall|a: int, b: int|
                0 <= a < b < scratch_paths@.len() implies scratch_paths@[a].0@
                != scratch_paths@[b].0@ by {
                assert(self.path_index@[a].0@ != self.path_index@[b].0@);
            }
        }
        proof {
            reveal_strlit("embeddings_v1");
            reveal_strlit("metadata_v1");
            reveal_strlit("metrics_v1");
            reveal_strlit("file_path_idx_v1");
            reveal_strlit("tag_idx_v1");
        }
        let mut rows: Vec<(String, String, Vec<u8>)> = Vec::new();
        let mut p1: usize = 0;
        while p1 < records.len()
            invariant
                forall|q: int| 0 <= q < rows@.len() ==> (#[trigger] rows@[q].0@).len() > 0,
                0 <= p1 <= records@.len(),
                forall|i: int| 0 <= i < records@.len() ==> bounded_vector(#[trigger] records@[i].1@),
                forall|i: int| 0 <= i < records@.len() ==> #[trigger] records@[i].1@.len()
                    == EMBEDDING_DIM,
                assoc_keys_unique(scratch_tags@),
                assoc_keys_unique(scratch_paths@),
            decreases records@.len() - p1,
        {
            let embedding = records[p1].1.clone();
            proof {
                assert(embedding@ =~= records@[p1 as int].1@);
                reveal_strlit("embeddings_v1");
                reveal_strlit("metadata_v1");
                reveal_strlit("metrics_v1");
            }
            let record = EmbeddingRecord::new(embedding);
            rows.push((
                "embeddings_v1".to_owned(),
                records[p1].0.id.clone(),
                encode_embedding_row(&record),
            ));
            rows.push((
                "metadata_v1".to_owned(),
                records[p1].0.id.clone(),
                encode_pattern_row(&records[p1].0),
            ));
            rows.push((
                "metrics_v1".to_owned(),
                records[p1].0.id.clone(),
                encode_metrics_row(&PerformanceMetrics::new()),
            ));
            let mut fi: usize = 0;
            while fi < records[p1].0.file_paths.len()
                invariant
                    0 <= p1 < records@.len(),
                    assoc_keys_unique(scratch_paths@),
                decreases records@[p1 as int].0.file_paths@.len() - fi,
            {
                update_index_entry(
                    &mut scratch_paths,
                    &records[p1].0.file_paths[fi],
                    &records[p1].0.id,
                );
                fi = fi + 1;
            }
            let mut gi: usize = 0;
            while gi < records[p1].0.tags.len()
                invariant
                    0 <= p1 < records@.len(),
                    assoc_keys_unique(scratch_tags@),
                decreases records@[p1 as int].0.tags@.len() - gi,
            {
                update_index_entry(&mut scratch_tags, &records[p1].0.tags[gi], &records[p1].0.id);
                gi = gi + 1;
            }
            p1 = p1 + 1;
        }
        let mut p2: usize = 0;
        while p2 < records.len()
            invariant
                forall|q: int| 0 <= q < rows@.len() ==> (#[trigger] rows@[q].0@).len() > 0,
                0 <= p2 <= records@.len(),
            decreases records@.len() - p2,
        {
            let mut fi: usize = 0;
            while fi < records[p2].0.file_paths.len()
                invariant
                    forall|q: int| 0 <= q < rows@.len() ==> (#[trigger] rows@[q].0@).len() > 0,
                    0 <= p2 < records@.len(),
                decreases records@[p2 as int].0.file_paths@.len() - fi,
            {
                proof {
                    reveal_strlit("file_path_idx_v1");
                }
                match assoc_find_index(&scratch_paths, &records[p2].0.file_paths[fi]) {
                    Some(ix) => {
                        let ids = scratch_paths[ix].1.clone();
                        rows.push((
                            "file_path_idx_v1".to_owned(),
                            records[p2].0.file_paths[fi].clone(),
                            encode_id_list_row(&ids),
                        ));
                    },
                    None => {},
                }
                fi = fi + 1;
            }
            let mut gi: usize = 0;
            while gi < records[p2].0.tags.len()
                invariant
                    forall|q: int| 0 <= q < rows@.len() ==> (#[trigger] rows@[q].0@).len() > 0,
                    0 <= p2 < records@.len(),
                decreases records@[p2 as int].0.tags@.len() - gi,
            {
                proof {
                    reveal_strlit("tag_idx_v1");
                }
                match assoc_find_index(&scratch_tags, &records[p2].0.tags[gi]) {
                    Some(ix) => {
                        let ids = scratch_tags[ix].1.clone();
                        rows.push((
                            "tag_idx_v1".to_owned(),
                            records[p2].0.tags[gi].clone(),
                            encode_id_list_row(&ids),
                        ));
                    },
                    None => {},
                }
                gi = gi + 1;
            }
            p2 = p2 + 1;
        }
        match crate::storage::db_put_rows(&self.db, &rows) {
            Ok(()) => {},
            Err(msg) => {
                return Err(TemporalAIError::DatabaseError(msg));
            },
        }
        let mut p: usize = 0;
        while p < records.len()
            invariant
                0 <= p <= records@.len(),
                self.wf(),
                forall|i: int| 0 <= i < records@.len() ==> bounded_vector(#[trigger] records@[i].1@),
                forall|i: int| 0 <= i < records@.len() ==> #[trigger] records@[i].1@.len()
                    == EMBEDDING_DIM,
                forall|i: int|
                    0 <= i < p ==> (#[trigger] self.spec_pattern(records@[i].0@.id)) is Some,
                forall|i: int|
                    0 <= i < p && (forall|j: int|
                        i < j < p ==> records@[j].0@.id != records@[i].0@.id) ==> {
                        &&& (#[trigger] self.spec_pattern(records@[i].0@.id)) matches Some(q) && q@
                            == records@[i].0@
                        &&& self.spec_embedding(records@[i].0@.id) matches Some(rec) && rec@.vector
                            == records@[i].1@
                        &&& self.spec_metrics(records@[i].0@.id) matches Some(m) && m@
                            == fresh_metrics_view()
                    },
                forall|k: Seq<char>|
                    (forall|i: int| 0 <= i < p ==> records@[i].0@.id != k) ==> {
                        &&& #[trigger] self.spec_pattern(k) == old(self).spec_pattern(k)
                        &&& self.spec_embedding(k) == old(self).spec_embedding(k)
                        &&& self.spec_metrics(k) == old(self).spec_metrics(k)
                    },
                forall|i: int, t: Seq<char>|
                    0 <= i < p && (#[trigger] records@[i].0@.tags.contains(t))
                        ==> self.spec_tag_ids(t).contains(records@[i].0@.id),
                forall|i: int, t: Seq<char>|
                    0 <= i < p && (#[trigger] records@[i].0@.file_paths.contains(t))
                        ==> self.spec_path_ids(t).contains(records@[i].0@.id),
                forall|t: Seq<char>|
                    #[trigger] self.spec_tag_ids(t) == batch_tag_fold(
                        records@,
                        p as int,
                        t,
                        old(self).spec_tag_ids(t),
                    ),
                forall|t: Seq<char>|
                    #[trigger] self.spec_path_ids(t) == batch_path_fold(
                        records@,
                        p as int,
                        t,
                        old(self).spec_path_ids(t),
                    ),
            decreases records@.len() - p,
        {
            let ghost pre = *self;
            let embedding = records[p].1.clone();
            proof {
                assert(embedding@ =~= records@[p as int].1@);
            }
            let record = EmbeddingRecord::new(embedding);
            self.insert_model(&records[p].0, record);
            proof {
                assert(inserted_state(pre, *self, records@[p as int].0@, records@[p as int].1@));
                let idp = records@[p as int].0@.id;
                assert forall|i: int, t: Seq<char>|
                    0 <= i < p + 1 && (#[trigger] records@[i].0@.tags.contains(t)) implies
                    self.spec_tag_ids(t).contains(records@[i].0@.id) by {
                    if i < p {
                        lemma_id_list_contains_add(pre.spec_tag_ids(t), idp, records@[i].0@.id);
                    } else {
                        lemma_id_list_add_contains(pre.spec_tag_ids(t), idp);
                    }
                }
                assert forall|i: int, t: Seq<char>|
                    0 <= i < p + 1 && (#[trigger] records@[i].0@.file_paths.contains(t)) implies
                    self.spec_path_ids(t).contains(records@[i].0@.id) by {
                    if i < p {
                        lemma_id_list_contains_add(pre.spec_path_ids(t), idp, records@[i].0@.id);
                    } else {
                        lemma_id_list_add_contains(pre.spec_path_ids(t), idp);
                    }
                }
                assert forall|t: Seq<char>| #[trigger]
                    self.spec_tag_ids(t) == batch_tag_fold(
                        records@,
                        p as int + 1,
                        t,
                        old(self).spec_tag_ids(t),
                    ) by {
                }
                assert forall|t: Seq<char>| #[trigger]
                    self.spec_path_ids(t) == batch_path_fold(
                        records@,
                        p as int + 1,
                        t,
                        old(self).spec_path_ids(t),
                    ) by {
                }
            }
            p = p + 1;
        }
        proof {
            assert forall|t: Seq<char>|
                (forall|i: int|
                    0 <= i < records@.len() ==> !(#[trigger] records@[i].0@.tags.contains(t)))
                    implies #[trigger] self.spec_tag_ids(t) == old(self).spec_tag_ids(t) by {
                lemma_batch_tag_fold_untouched(
                    records@,
                    records@.len() as int,
                    t,
                    old(self).spec_tag_ids(t),
                );
            }
            assert forall|t: Seq<char>|
                (forall|i: int|
                    0 <= i < records@.len() ==> !(#[trigger] records@[i].0@.file_paths.contains(t)))
                    implies #[trigger] self.spec_path_ids(t) == old(self).spec_path_ids(t) by {
                lemma_batch_path_fold_untouched(
                    records@,
                    records@.len() as int,
                    t,
                    old(self).spec_path_ids(t),
                );
            }
        }
        Ok(())
    }

    /// Replaces the metrics entry for `pattern_id` atomically.
    pub fn update_metrics(&mut self, pattern_id: &str, metrics: PerformanceMetrics) -> (r: Result<
        (),
        TemporalAIError,
    >)
        requires
            old(self).wf(),
            metrics_wf(metrics@),
        ensures
            final(self).wf(),
            match r {
                Ok(()) => {
                    &&& final(self).spec_metrics(pattern_id@) matches Some(m) && m@ == metrics@
                    &&& forall|k: Seq<char>|
                        k != pattern_id@ ==> #[trigger] final(self).spec_metrics(k) == old(
                            self,
                        ).spec_metrics(k)
                    &&& forall|k: Seq<char>|
                        #[trigger] final(self).spec_embedding(k) == old(self).spec_embedding(k)
                    &&& forall|k: Seq<char>|
                        #[trigger] final(self).spec_pattern(k) == old(self).spec_pattern(k)
                    &&& forall|t: Seq<char>|
                        #[trigger] final(self).spec_tag_ids(t) == old(self).spec_tag_ids(t)
                    &&& forall|t: Seq<char>|
                        #[trigger] final(self).spec_path_ids(t) == old(self).spec_path_ids(t)
                    &&& final(self).spec_pattern_ids() == old(self).spec_pattern_ids()
                },
                Err(e) => e is DatabaseError && *final(self) == *old(self),
            },
    {
        let row = encode_metrics_row(&metrics);
        proof {
            reveal_strlit("metrics_v1");
        }
        let mut rows: Vec<(String, String, Vec<u8>)> = Vec::new();
        let key: String = pattern_id.to_owned();
        rows.push(("metrics_v1".to_owned(), key.clone(), row));
        match crate::storage::db_put_rows(&self.db, &rows) {
            Ok(()) => {},
            Err(msg) => {
                return Err(TemporalAIError::DatabaseError(msg));
            },
        }
        self.set_metrics_model(key, metrics);
        Ok(())
    }

    /// Rebinds one metrics entry in the in-memory tables, leaving everything
    /// else untouched.
    fn set_metrics_model(&mut self, key: String, metrics: PerformanceMetrics)
        requires
            old(self).wf(),
            metrics_wf(metrics@),
        ensures
            final(self).wf(),
            final(self).spec_metrics(key@) matches Some(m) && m@ == metrics@,
            forall|k: Seq<char>|
                k != key@ ==> #[trigger] final(self).spec_metrics(k) == old(self).spec_metrics(k),
            forall|k: Seq<char>|
                #[trigger] final(self).spec_embedding(k) == old(self).spec_embedding(k),
            forall|k: Seq<char>| #[trigger] final(self).spec_pattern(k) == old(self).spec_pattern(k),
            forall|t: Seq<char>| #[trigger] final(self).spec_tag_ids(t) == old(self).spec_tag_ids(t),
            forall|t: Seq<char>|
                #[trigger] final(self).spec_path_ids(t) == old(self).spec_path_ids(t),
            final(self).spec_pattern_ids() == old(self).spec_pattern_ids(),
    {
        assoc_upsert(&mut self.metrics, key, metrics);
    }

    /// Every index entry of a well-formed store is duplicate-free, so an id
    /// an index names is named exactly once.
    pub proof fn lemma_index_lists(self)
        requires
            self.wf(),
        ensures
            forall|t: Seq<char>| no_dup_ids(#[trigger] self.spec_tag_ids(t)),
            forall|t: Seq<char>| no_dup_ids(#[trigger] self.spec_path_ids(t)),
            forall|t: Seq<char>| sorted_ids(#[trigger] self.spec_tag_ids(t)),
            forall|t: Seq<char>| sorted_ids(#[trigger] self.spec_path_ids(t)),
    {
    }

    /// The stored pattern ids list all and only the stored patterns, without
    /// duplicates.
    pub proof fn lemma_pattern_ids(self)
        requires
            self.wf(),
        ensures
            no_dup_ids(self.spec_pattern_ids()),
            forall|k: Seq<char>|
                self.spec_pattern_ids().contains(k) <==> (#[trigger] self.spec_pattern(k)) is Some,
    {
        let ids = self.spec_pattern_ids();
        assert forall|k: Seq<char>|
            ids.contains(k) <==> (#[trigger] self.spec_pattern(k)) is Some by {
            if ids.contains(k) {
                let i = choose|i: int| 0 <= i < ids.len() && ids[i] == k;
                assert(self.metadata@[i].0@ == k);
                assert forall|j: int| 0 <= j < i implies self.metadata@[j].0@ != k by {
                    assert(self.metadata@[j].0@ != self.metadata@[i].0@);
                }
                lemma_assoc_get_index(self.metadata@, k, i);
            }
            if self.spec_pattern(k) is Some {
                lemma_assoc_get_some_index(self.metadata@, k);
                let i = choose|i: int|
                    0 <= i < self.metadata@.len() && self.metadata@[i].0@ == k && assoc_get(
                        self.metadata@,
                        k,
                    ) == Some(#[trigger] self.metadata@[i].1);
                assert(ids[i] == k);
            }
        }
    }

    /// Approximate byte size of the store: pattern count times a fixed
    /// per-record estimate, explicitly not an exact measurement.
    pub fn size(&self) -> (r: Result<u64, TemporalAIError>)
        requires
            self.spec_pattern_ids().len() < 0x100000000,
        ensures
            r matches Ok(n) && n == self.spec_pattern_ids().len() * 3500,
    {
        let count: u64 = self.metadata.len() as u64;
        Ok(count * 3500)
    }
}

} // verus!

verus! {

/// The decimal digit bytes of `n`, most significant first.
pub open spec fn dec_bytes(n: nat) -> Seq<u8>
    decreases n,
{
    if n < 10 {
        seq![(48 + n) as u8]
    } else {
        dec_bytes(n / 10).push((48 + n % 10) as u8)
    }
}

/// The value read from decimal digit bytes.
pub open spec fn digits_val(s: Seq<u8>) -> int
    decreases s.len(),
{
    if s.len() == 0 {
        0
    } else {
        digits_val(s.drop_last()) * 10 + (s.last() - 48)
    }
}

/// Every byte is a decimal digit.
pub open spec fn all_digits(s: Seq<u8>) -> bool {
    forall|i: int| 0 <= i < s.len() ==> 48 <= #[trigger] s[i] <= 57
}

/// The digit bytes of `n` are nonempty digits reading back as `n`.
pub proof fn lemma_dec_bytes(n: nat)
    ensures
        dec_bytes(n).len() >= 1,
        all_digits(dec_bytes(n)),
        digits_val(dec_bytes(n)) == n,
    decreases n,
{
    if n < 10 {
        assert(dec_bytes(n) =~= seq![(48 + n) as u8]);
        assert(dec_bytes(n).drop_last() =~= Seq::<u8>::empty());
        assert(digits_val(Seq::<u8>::empty()) == 0);
        assert(dec_bytes(n).last() == (48 + n) as u8);
        assert(digits_val(dec_bytes(n)) == 0 * 10 + ((48 + n) as u8 - 48));
    } else {
        lemma_dec_bytes(n / 10);
        let d = dec_bytes(n / 10);
        assert(dec_bytes(n).drop_last() =~= d);
        assert(dec_bytes(n).last() == (48 + n % 10) as u8);
        assert forall|i: int| 0 <= i < dec_bytes(n).len() implies 48 <= #[trigger] dec_bytes(n)[i]
            <= 57 by {
            if i < d.len() {
                assert(dec_bytes(n)[i] == d[i]);
            }
        }
        vstd::arithmetic::div_mod::lemma_fundamental_div_mod(n as int, 10);
    }
}

/// Digit strings read as nonnegative values, monotone in their prefixes.
pub proof fn lemma_digits_val_prefix(s: Seq<u8>)
    requires
        all_digits(s),
    ensures
        digits_val(s) >= 0,
        forall|k: int| 0 <= k <= s.len() ==> 0 <= digits_val(#[trigger] s.take(k)) <= digits_val(s),
    decreases s.len(),
{
    if s.len() == 0 {
        assert(s.take(0) =~= s);
    } else {
        let h = s.drop_last();
        assert(all_digits(h)) by {
            assert forall|i: int| 0 <= i < h.len() implies 48 <= #[trigger] h[i] <= 57 by {
                assert(h[i] == s[i]);
            }
        }
        lemma_digits_val_prefix(h);
        assert(digits_val(s) == digits_val(h) * 10 + (s.last() - 48));
        assert(digits_val(h) * 10 >= digits_val(h)) by (nonlinear_arith)
            requires
                digits_val(h) >= 0,
        ;
        assert forall|k: int|
            0 <= k <= s.len() implies 0 <= digits_val(#[trigger] s.take(k)) <= digits_val(s) by {
            if k < s.len() {
                assert(s.take(k) =~= h.take(k));
            } else {
                assert(s.take(k) =~= s);
            }
        }
    }
}

/// The bytes at `pos` hold exactly the stored number field of `v`.
pub open spec fn number_field_at(data: Seq<u8>, pos: int, v: i64) -> bool {
    &&& pos >= 0
    &&& pos + number_field(v as int).len() <= data.len()
    &&& data.subrange(pos, pos + number_field(v as int).len() as int) == number_field(v as int)
}

/// What a stored number field forces on the bytes around position `pos`.
proof fn lemma_number_field_shape(data: Seq<u8>, pos: int, v: i64)
    requires
        number_field_at(data, pos, v),
    ensures
        ({
            let sgn: int = if v < 0 {
                1int
            } else {
                0int
            };
            let mag: nat = if v < 0 {
                (-(v as int)) as nat
            } else {
                v as nat
            };
            let dlen = dec_bytes(mag).len() as int;
            &&& number_field(v as int).len() == sgn + dlen + 1
            &&& dlen >= 1
            &&& mag <= 0x8000000000000000
            &&& digits_val(dec_bytes(mag)) == mag
            &&& all_digits(dec_bytes(mag))
            &&& (v < 0 ==> data[pos] == 45)
            &&& (v >= 0 ==> 48 <= data[pos] <= 57)
            &&& (forall|q: int|
                pos + sgn <= q < pos + sgn + dlen ==> 48 <= #[trigger] data[q] <= 57)
            &&& data[pos + sgn + dlen] == 10
            &&& data.subrange(pos + sgn, pos + sgn + dlen) == dec_bytes(mag)
        }),
{
    let sgn: int = if v < 0 {
        1int
    } else {
        0int
    };
    let mag: nat = if v < 0 {
        (-(v as int)) as nat
    } else {
        v as nat
    };
    lemma_dec_bytes(mag);
    let d = dec_bytes(mag);
    let fld = number_field(v as int);
    assert(data.subrange(pos + sgn, pos + sgn + d.len() as int) =~= d) by {
        assert forall|q: int| 0 <= q < d.len() implies data[pos + sgn + q] == d[q] by {
            assert(data[pos + sgn + q] == fld[sgn + q]);
        }
    }
    assert(data[pos + sgn + d.len() as int] == fld[sgn + d.len() as int]);
    assert forall|q: int| pos + sgn <= q < pos + sgn + d.len() implies 48 <= #[trigger] data[q]
        <= 57 by {
        assert(data[q] == d[q - pos - sgn]);
    }
    if v < 0 {
        assert(data[pos] == fld[0]);
    } else {
        assert(data[pos] == fld[0]);
        assert(fld[0] == d[0]);
    }
}

/// A signed decimal number field, newline-terminated.
pub open spec fn number_field(v: int) -> Seq<u8> {
    if v >= 0 {
        dec_bytes(v as nat) + seq![10u8]
    } else {
        seq![45u8] + dec_bytes((-v) as nat) + seq![10u8]
    }
}

/// An unsigned decimal counter field, newline-terminated.
pub open spec fn count_field(n: nat) -> Seq<u8> {
    dec_bytes(n) + seq![10u8]
}

/// A length-prefixed text field: the byte length in decimal, a colon, then
/// the text's UTF-8 bytes.
pub open spec fn text_field(s: Seq<char>) -> Seq<u8> {
    dec_bytes(vstd::utf8::encode_utf8(s).len()) + seq![58u8] + vstd::utf8::encode_utf8(s)
}

/// An optional number: a presence flag field, then the value field when
/// present.
pub open spec fn option_field(v: Option<i64>) -> Seq<u8> {
    match v {
        Some(n) => number_field(1) + number_field(n as int),
        None => number_field(0),
    }
}

/// The number fields of the vector components, in order.
pub open spec fn components_bytes(v: Seq<i64>) -> Seq<u8>
    decreases v.len(),
{
    if v.len() == 0 {
        Seq::empty()
    } else {
        components_bytes(v.drop_last()) + number_field(v.last() as int)
    }
}

/// The text fields of a string list, in order.
pub open spec fn texts_bytes(v: Seq<Seq<char>>) -> Seq<u8>
    decreases v.len(),
{
    if v.len() == 0 {
        Seq::empty()
    } else {
        texts_bytes(v.drop_last()) + text_field(v.last())
    }
}

/// The number fields of the feedback judgments, in order.
pub open spec fn feedback_bytes(v: Seq<i8>) -> Seq<u8>
    decreases v.len(),
{
    if v.len() == 0 {
        Seq::empty()
    } else {
        feedback_bytes(v.drop_last()) + number_field(v.last() as int)
    }
}

/// The stored row of an embedding record: component count, the components,
/// then norm, creation time and schema version.
pub open spec fn embedding_row(r: crate::schema::EmbeddingRecordView) -> Seq<u8> {
    count_field(r.vector.len()) + components_bytes(r.vector) + number_field(r.norm as int)
        + number_field(r.created_at as int) + number_field(r.version as int)
}

/// The stored row of a pattern: id, description and commit sha as text
/// fields, the timestamp, then the counted path and tag lists.
pub open spec fn pattern_row(p: crate::pattern_extractor::PatternView) -> Seq<u8> {
    text_field(p.id) + text_field(p.description) + text_field(p.commit_sha) + number_field(
        p.timestamp as int,
    ) + count_field(p.file_paths.len()) + texts_bytes(p.file_paths) + count_field(p.tags.len())
        + texts_bytes(p.tags)
}

/// The stored row of a metrics entry: the counters, the counted feedback
/// list, and the three optionals.
pub open spec fn metrics_row(m: crate::schema::PerformanceMetricsView) -> Seq<u8> {
    count_field(m.usage_count as nat) + number_field(m.avg_relevance_score as int) + number_field(
        m.last_recommended as int,
    ) + count_field(m.feedback_scores.len()) + feedback_bytes(m.feedback_scores) + option_field(
        m.success_rate,
    ) + option_field(m.avg_latency_ms) + option_field(m.error_rate)
}

/// The stored row of an index entry: the id count, then each id as a text
/// field.
pub open spec fn id_list_row(ids: Seq<Seq<char>>) -> Seq<u8> {
    count_field(ids.len()) + texts_bytes(ids)
}

/// Appends the decimal digit bytes of `n`.
fn push_digits(out: &mut Vec<u8>, n: u64)
    ensures
        final(out)@ == old(out)@ + dec_bytes(n as nat),
    decreases n,
{
    if n < 10 {
        out.push(48 + n as u8);
        proof {
            assert(out@ =~= old(out)@ + dec_bytes(n as nat));
        }
    } else {
        push_digits(out, n / 10);
        let ghost mid = out@;
        out.push(48 + (n % 10) as u8);
        proof {
            assert(out@ =~= old(out)@ + dec_bytes(n as nat));
        }
    }
}

/// Appends a signed decimal number field followed by a newline.
fn push_number_field(out: &mut Vec<u8>, v: i64)
    ensures
        final(out)@ == old(out)@ + number_field(v as int),
{
    if v < 0 {
        out.push(45u8);
        let mag: u64 = (-(v as i128)) as u64;
        push_digits(out, mag);
        out.push(10u8);
        proof {
            assert(out@ =~= old(out)@ + number_field(v as int));
        }
    } else {
        push_digits(out, v as u64);
        out.push(10u8);
        proof {
            assert(out@ =~= old(out)@ + number_field(v as int));
        }
    }
}

/// Appends an unsigned counter field followed by a newline.
fn push_count_field(out: &mut Vec<u8>, n: u64)
    ensures
        final(out)@ == old(out)@ + count_field(n as nat),
{
    push_digits(out, n);
    out.push(10u8);
    proof {
        assert(out@ =~= old(out)@ + count_field(n as nat));
    }
}

/// Appends a length-prefixed text field: decimal byte length, a colon, then
/// the raw UTF-8 bytes.
fn push_text_field(out: &mut Vec<u8>, s: &str)
    ensures
        final(out)@ == old(out)@ + text_field(s@),
{
    let mut bytes = s.as_bytes_vec();
    push_digits(out, bytes.len() as u64);
    out.push(58u8);
    out.append(&mut bytes);
    proof {
        assert(out@ =~= old(out)@ + text_field(s@));
    }
}

/// Appends an optional number: a presence flag field, then the value when
/// present.
fn push_option_field(out: &mut Vec<u8>, v: &Option<i64>)
    ensures
        final(out)@ == old(out)@ + option_field(*v),
{
    match v {
        Some(n) => {
            push_number_field(out, 1);
            push_number_field(out, *n);
            proof {
                assert(out@ =~= old(out)@ + option_field(*v));
            }
        },
        None => {
            push_number_field(out, 0);
            proof {
                assert(out@ =~= old(out)@ + option_field(*v));
            }
        },
    }
}

/// Encodes an embedding record into its stored row.
fn encode_embedding_row(rec: &EmbeddingRecord) -> (r: Vec<u8>)
    ensures
        r@ == embedding_row(rec@),
{
    let mut out: Vec<u8> = Vec::new();
    push_count_field(&mut out, rec.vector.len() as u64);
    let mut i: usize = 0;
    while i < rec.vector.len()
        invariant
            0 <= i <= rec.vector@.len(),
            out@ == count_field(rec.vector@.len()) + components_bytes(rec.vector@.take(i as int)),
        decreases rec.vector@.len() - i,
    {
        push_number_field(&mut out, rec.vector[i]);
        proof {
            assert(rec.vector@.take(i as int + 1).drop_last() =~= rec.vector@.take(i as int));
            assert(rec.vector@.take(i as int + 1).last() == rec.vector@[i as int]);
            assert(out@ =~= count_field(rec.vector@.len()) + components_bytes(
                rec.vector@.take(i as int + 1),
            ));
        }
        i = i + 1;
    }
    proof {
        assert(rec.vector@.take(rec.vector@.len() as int) =~= rec.vector@);
    }
    push_number_field(&mut out, rec.norm);
    push_number_field(&mut out, rec.created_at);
    push_number_field(&mut out, rec.version as i64);
    proof {
        assert(out@ =~= embedding_row(rec@));
    }
    out
}

/// Encodes a pattern into its stored row.
fn encode_pattern_row(p: &Pattern) -> (r: Vec<u8>)
    ensures
        r@ == pattern_row(p@),
{
    let mut out: Vec<u8> = Vec::new();
    push_text_field(&mut out, p.id.as_str());
    push_text_field(&mut out, p.description.as_str());
    push_text_field(&mut out, p.commit_sha.as_str());
    push_number_field(&mut out, p.timestamp);
    push_count_field(&mut out, p.file_paths.len() as u64);
    let ghost head = out@;
    let mut i: usize = 0;
    while i < p.file_paths.len()
        invariant
            0 <= i <= p.file_paths@.len(),
            out@ == head + texts_bytes(p.file_paths.deep_view().take(i as int)),
        decreases p.file_paths@.len() - i,
    {
        push_text_field(&mut out, p.file_paths[i].as_str());
        proof {
            let dv = p.file_paths.deep_view();
            assert(dv[i as int] == p.file_paths@[i as int]@);
            assert(dv.take(i as int + 1).drop_last() =~= dv.take(i as int));
            assert(dv.take(i as int + 1).last() == dv[i as int]);
            assert(out@ =~= head + texts_bytes(dv.take(i as int + 1)));
        }
        i = i + 1;
    }
    proof {
        assert(p.file_paths.deep_view().take(p.file_paths@.len() as int) =~= p.file_paths.deep_view());
    }
    push_count_field(&mut out, p.tags.len() as u64);
    let ghost head2 = out@;
    let mut j: usize = 0;
    while j < p.tags.len()
        invariant
            0 <= j <= p.tags@.len(),
            out@ == head2 + texts_bytes(p.tags.deep_view().take(j as int)),
        decreases p.tags@.len() - j,
    {
        push_text_field(&mut out, p.tags[j].as_str());
        proof {
            let dv = p.tags.deep_view();
            assert(dv[j as int] == p.tags@[j as int]@);
            assert(dv.take(j as int + 1).drop_last() =~= dv.take(j as int));
            assert(dv.take(j as int + 1).last() == dv[j as int]);
            assert(out@ =~= head2 + texts_bytes(dv.take(j as int + 1)));
        }
        j = j + 1;
    }
    proof {
        assert(p.tags.deep_view().take(p.tags@.len() as int) =~= p.tags.deep_view());
        assert(out@ =~= pattern_row(p@));
    }
    out
}

/// Encodes a metrics entry into its stored row.
fn encode_metrics_row(m: &PerformanceMetrics) -> (r: Vec<u8>)
    ensures
        r@ == metrics_row(m@),
{
    let mut out: Vec<u8> = Vec::new();
    push_count_field(&mut out, m.usage_count);
    push_number_field(&mut out, m.avg_relevance_score);
    push_number_field(&mut out, m.last_recommended);
    push_count_field(&mut out, m.feedback_scores.len() as u64);
    let ghost head = out@;
    let mut i: usize = 0;
    while i < m.feedback_scores.len()
        invariant
            0 <= i <= m.feedback_scores@.len(),
            out@ == head + feedback_bytes(m.feedback_scores@.take(i as int)),
        decreases m.feedback_scores@.len() - i,
    {
        push_number_field(&mut out, m.feedback_scores[i] as i64);
        proof {
            assert(m.feedback_scores@.take(i as int + 1).drop_last() =~= m.feedback_scores@.take(
                i as int,
            ));
            assert(m.feedback_scores@.take(i as int + 1).last() == m.feedback_scores@[i as int]);
            assert(out@ =~= head + feedback_bytes(m.feedback_scores@.take(i as int + 1)));
        }
        i = i + 1;
    }
    proof {
        assert(m.feedback_scores@.take(m.feedback_scores@.len() as int) =~= m.feedback_scores@);
    }
    push_option_field(&mut out, &m.success_rate);
    push_option_field(&mut out, &m.avg_latency_ms);
    push_option_field(&mut out, &m.error_rate);
    proof {
        assert(out@ =~= metrics_row(m@));
    }
    out
}

/// Encodes an index entry into its stored row.
fn encode_id_list_row(ids: &Vec<String>) -> (r: Vec<u8>)
    ensures
        r@ == id_list_row(ids.deep_view()),
{
    let mut out: Vec<u8> = Vec::new();
    push_count_field(&mut out, ids.len() as u64);
    let ghost head = out@;
    let mut i: usize = 0;
    while i < ids.len()
        invariant
            0 <= i <= ids@.len(),
            out@ == head + texts_bytes(ids.deep_view().take(i as int)),
        decreases ids@.len() - i,
    {
        push_text_field(&mut out, ids[i].as_str());
        proof {
            let dv = ids.deep_view();
            assert(dv[i as int] == ids@[i as int]@);
            assert(dv.take(i as int + 1).drop_last() =~= dv.take(i as int));
            assert(dv.take(i as int + 1).last() == dv[i as int]);
            assert(out@ =~= head + texts_bytes(dv.take(i as int + 1)));
        }
        i = i + 1;
    }
    proof {
        assert(ids.deep_view().take(ids@.len() as int) =~= ids.deep_view());
        assert(out@ =~= id_list_row(ids.deep_view()));
    }
    out
}

/// Reads a decimal number field up to its newline; `None` on anything
/// malformed or out of the `i64` range.  Wherever the bytes at `pos` hold a
/// stored number field, the parse is forced to return exactly its value.
#[verifier::rlimit(100)]
fn parse_number(data: &Vec<u8>, pos: usize) -> (r: Option<(i64, usize)>)
    ensures
        r matches Some(p) ==> pos < p.1 <= data@.len(),
        forall|v: i64|
            number_field_at(data@, pos as int, v) ==> (r matches Some(p) && p.0 == v
                && p.1 as int == pos + #[trigger] number_field(v as int).len()),
{
    let n: usize = data.len();
    if pos >= n {
        proof {
            assert forall|v: i64| !(#[trigger] number_field_at(data@, pos as int, v)) by {
                if number_field_at(data@, pos as int, v) {
                    lemma_number_field_shape(data@, pos as int, v);
                }
            }
        }
        return None;
    }
    let negative = data[pos] == 45u8;
    let start: usize = if negative {
        pos + 1
    } else {
        pos
    };
    let mut j: usize = start;
    let mut acc: u128 = 0;
    while j < n && data[j] != 10u8
        invariant
            pos <= start <= j <= n,
            start <= pos + 1,
            n == data@.len(),
            negative == (data@[pos as int] == 45),
            negative ==> start == pos + 1,
            !negative ==> start == pos,
            forall|q: int| start <= q < j ==> 48 <= #[trigger] data@[q] <= 57,
            acc == digits_val(data@.subrange(start as int, j as int)),
            acc <= 0x8000000000000000u128,
        decreases n - j,
    {
        let b = data[j];
        if b < 48u8 || b > 57u8 {
            proof {
                assert forall|v: i64| !(#[trigger] number_field_at(data@, pos as int, v)) by {
                    if number_field_at(data@, pos as int, v) {
                        lemma_number_field_shape(data@, pos as int, v);
                        let sgn: int = if v < 0 {
                            1int
                        } else {
                            0int
                        };
                        let mag: nat = if v < 0 {
                            (-(v as int)) as nat
                        } else {
                            v as nat
                        };
                        let dend = pos + sgn + dec_bytes(mag).len() as int;
                        assert(start as int == pos + sgn);
                        if j > dend {
                            assert(48 <= data@[dend] <= 57);
                        } else if j == dend {
                            assert(data@[j as int] == 10);
                        } else {
                            assert(48 <= data@[j as int] <= 57);
                        }
                    }
                }
            }
            return None;
        }
        let ghost pre = data@.subrange(start as int, j as int);
        acc = acc * 10 + ((b - 48u8) as u128);
        proof {
            assert(data@.subrange(start as int, j as int + 1).drop_last() =~= pre);
            assert(data@.subrange(start as int, j as int + 1).last() == data@[j as int]);
        }
        if acc > 0x8000000000000000u128 {
            proof {
                assert forall|v: i64| !(#[trigger] number_field_at(data@, pos as int, v)) by {
                    if number_field_at(data@, pos as int, v) {
                        lemma_number_field_shape(data@, pos as int, v);
                        let sgn: int = if v < 0 {
                            1int
                        } else {
                            0int
                        };
                        let mag: nat = if v < 0 {
                            (-(v as int)) as nat
                        } else {
                            v as nat
                        };
                        let d = dec_bytes(mag);
                        let dend = pos + sgn + d.len() as int;
                        assert(start as int == pos + sgn);
                        if j > dend {
                            assert(48 <= data@[dend] <= 57);
                        } else if j == dend {
                            assert(data@[j as int] == 10);
                        }
                        assert(j < dend);
                        assert(data@.subrange(start as int, j as int + 1) =~= d.take(
                            j as int + 1 - start as int,
                        )) by {
                            assert forall|q: int|
                                0 <= q < j as int + 1 - start as int implies data@[start as int + q]
                                == d[q] by {
                                assert(data@[start as int + q] == data@.subrange(
                                    pos + sgn,
                                    dend,
                                )[q]);
                            }
                        }
                        lemma_digits_val_prefix(d);
                        assert(acc <= mag);
                    }
                }
            }
            return None;
        }
        j = j + 1;
    }
    if j == n || j == start {
        proof {
            assert forall|v: i64| !(#[trigger] number_field_at(data@, pos as int, v)) by {
                if number_field_at(data@, pos as int, v) {
                    lemma_number_field_shape(data@, pos as int, v);
                    let sgn: int = if v < 0 {
                        1int
                    } else {
                        0int
                    };
                    let mag: nat = if v < 0 {
                        (-(v as int)) as nat
                    } else {
                        v as nat
                    };
                    let dend = pos + sgn + dec_bytes(mag).len() as int;
                    assert(start as int == pos + sgn);
                    assert(dend < n);
                    if j > dend {
                        assert(48 <= data@[dend] <= 57);
                    }
                    if j == n {
                        assert(false);
                    } else {
                        assert(data@[j as int] == 10);
                        assert(j == dend) by {
                            if j < dend {
                                assert(48 <= data@[j as int] <= 57);
                            }
                        }
                        assert(48 <= data@[start as int] <= 57);
                    }
                }
            }
        }
        return None;
    }
    let value_opt: Option<i64> = if negative {
        if acc == 0x8000000000000000u128 {
            Some(i64::MIN)
        } else {
            Some(-(acc as i64))
        }
    } else {
        if acc > 0x7fffffffffffffffu128 {
            None
        } else {
            Some(acc as i64)
        }
    };
    proof {
        assert forall|v: i64|
            #[trigger] number_field_at(data@, pos as int, v) implies (value_opt matches Some(w)
            && w == v && j + 1 == pos + number_field(v as int).len()) by {
            lemma_number_field_shape(data@, pos as int, v);
            let sgn: int = if v < 0 {
                1int
            } else {
                0int
            };
            let mag: nat = if v < 0 {
                (-(v as int)) as nat
            } else {
                v as nat
            };
            let d = dec_bytes(mag);
            let dend = pos + sgn + d.len() as int;
            assert(start as int == pos + sgn);
            assert(negative == (v < 0));
            if j > dend {
                assert(48 <= data@[dend] <= 57);
            }
            assert(j == dend) by {
                if j < dend {
                    assert(48 <= data@[j as int] <= 57);
                }
            }
            assert(data@.subrange(start as int, j as int) =~= d) by {
                assert forall|q: int| 0 <= q < d.len() implies data@[start as int + q] == d[q] by {
                    assert(data@[start as int + q] == data@.subrange(pos + sgn, dend)[q]);
                }
            }
            assert(acc == mag);
        }
    }
    match value_opt {
        None => None,
        Some(value) => Some((value, j + 1)),
    }
}

/// The bytes at `pos` hold exactly the stored text field of `sv`.
pub open spec fn text_field_at(data: Seq<u8>, pos: int, sv: Seq<char>) -> bool {
    &&& pos >= 0
    &&& pos + text_field(sv).len() <= data.len()
    &&& data.subrange(pos, pos + text_field(sv).len() as int) == text_field(sv)
}

/// What a stored text field forces on the bytes at `pos`.
proof fn lemma_text_field_shape(data: Seq<u8>, pos: int, sv: Seq<char>)
    requires
        text_field_at(data, pos, sv),
    ensures
        ({
            let bs = vstd::utf8::encode_utf8(sv);
            let d = dec_bytes(bs.len());
            let body = pos + d.len() + 1;
            &&& d.len() >= 1
            &&& all_digits(d)
            &&& digits_val(d) == bs.len()
            &&& (forall|q: int| pos <= q < pos + d.len() ==> 48 <= #[trigger] data[q] <= 57)
            &&& data[pos + d.len() as int] == 58
            &&& data.subrange(body, body + bs.len() as int) == bs
            &&& vstd::utf8::valid_utf8(bs)
            &&& text_field(sv).len() == d.len() + 1 + bs.len()
        }),
{
    broadcast use vstd::utf8::encode_utf8_valid_utf8;

    let bs = vstd::utf8::encode_utf8(sv);
    let d = dec_bytes(bs.len());
    lemma_dec_bytes(bs.len());
    let fld = text_field(sv);
    let body = pos + d.len() + 1;
    assert forall|q: int| pos <= q < pos + d.len() implies 48 <= #[trigger] data[q] <= 57 by {
        assert(data[q] == data.subrange(pos, pos + fld.len() as int)[q - pos]);
        assert(fld[q - pos] == d[q - pos]);
    }
    assert(data[pos + d.len() as int] == data.subrange(pos, pos + fld.len() as int)[d.len() as int]);
    assert(data.subrange(body, body + bs.len() as int) =~= bs) by {
        assert forall|x: int| 0 <= x < bs.len() implies data[body + x] == bs[x] by {
            assert(data[body + x] == data.subrange(pos, pos + fld.len() as int)[d.len() + 1 + x]);
            assert(fld[d.len() + 1 + x] == bs[x]);
        }
    }
}

/// Reads a length-prefixed text field; `None` on anything malformed.  On
/// the exact stored field of text whose encoding fits the length cap, the
/// parse is forced to return exactly that text.
#[verifier::rlimit(100)]
fn parse_text(data: &Vec<u8>, pos: usize) -> (r: Option<(String, usize)>)
    ensures
        r matches Some(p) ==> pos < p.1 <= data@.len(),
        forall|sv: Seq<char>|
            (#[trigger] text_field_at(data@, pos as int, sv) && vstd::utf8::encode_utf8(sv).len()
                <= 0xffffff) ==> (r matches Some(p) && p.0@ == sv && p.1 as int == pos + text_field(
                sv,
            ).len()),
{
    let n: usize = data.len();
    if pos >= n {
        proof {
            assert forall|sv: Seq<char>|
                !(#[trigger] text_field_at(data@, pos as int, sv)) || !(vstd::utf8::encode_utf8(
                    sv,
                ).len() <= 0xffffff) by {
                if text_field_at(data@, pos as int, sv) {
                    lemma_text_field_shape(data@, pos as int, sv);
                }
            }
        }
        return None;
    }
    let mut j: usize = pos;
    let mut len: u64 = 0;
    while j < n && data[j] != 58u8
        invariant
            pos <= j <= n,
            n == data@.len(),
            forall|q: int| pos <= q < j ==> 48 <= #[trigger] data@[q] <= 57,
            len == digits_val(data@.subrange(pos as int, j as int)),
            len <= 0xffffffu64,
        decreases n - j,
    {
        let b = data[j];
        if b < 48u8 || b > 57u8 {
            proof {
                assert forall|sv: Seq<char>|
                    !(#[trigger] text_field_at(data@, pos as int, sv)) || !(
                    vstd::utf8::encode_utf8(sv).len() <= 0xffffff) by {
                    if text_field_at(data@, pos as int, sv) {
                        lemma_text_field_shape(data@, pos as int, sv);
                        let dend = pos + dec_bytes(
                            vstd::utf8::encode_utf8(sv).len(),
                        ).len() as int;
                        if j > dend {
                            assert(48 <= data@[dend] <= 57);
                        } else if j == dend {
                            assert(data@[j as int] == 58);
                        } else {
                            assert(48 <= data@[j as int] <= 57);
                        }
                    }
                }
            }
            return None;
        }
        let ghost pre = data@.subrange(pos as int, j as int);
        len = len * 10 + ((b - 48u8) as u64);
        proof {
            assert(data@.subrange(pos as int, j as int + 1).drop_last() =~= pre);
            assert(data@.subrange(pos as int, j as int + 1).last() == data@[j as int]);
        }
        if len > 0xffffffu64 {
            proof {
                assert forall|sv: Seq<char>|
                    !(#[trigger] text_field_at(data@, pos as int, sv)) || !(
                    vstd::utf8::encode_utf8(sv).len() <= 0xffffff) by {
                    if text_field_at(data@, pos as int, sv) && vstd::utf8::encode_utf8(sv).len()
                        <= 0xffffff {
                        lemma_text_field_shape(data@, pos as int, sv);
                        let bs = vstd::utf8::encode_utf8(sv);
                        let d = dec_bytes(bs.len());
                        let dend = pos + d.len() as int;
                        if j > dend {
                            assert(48 <= data@[dend] <= 57);
                        } else if j == dend {
                            assert(data@[j as int] == 58);
                        }
                        assert(j < dend);
                        assert(data@.subrange(pos as int, j as int + 1) =~= d.take(
                            j as int + 1 - pos as int,
                        )) by {
                            assert forall|x: int|
                                0 <= x < j as int + 1 - pos as int implies data@[pos as int + x]
                                == d[x] by {
                                assert(data@[pos as int + x] == data@.subrange(
                                    pos as int,
                                    dend,
                                )[x]);
                                assert(data@.subrange(pos as int, dend) =~= d) by {
                                    assert forall|y: int|
                                        0 <= y < d.len() implies data@.subrange(pos as int, dend)[y]
                                        == d[y] by {
                                        assert(data@[pos as int + y] == data@.subrange(
                                            pos as int,
                                            pos as int + text_field(sv).len() as int,
                                        )[y]);
                                        assert(text_field(sv)[y] == d[y]);
                                    }
                                }
                            }
                        }
                        lemma_digits_val_prefix(d);
                        assert(len <= bs.len());
                    }
                }
            }
            return None;
        }
        j = j + 1;
    }
    if j >= n || j == pos {
        proof {
            assert forall|sv: Seq<char>|
                !(#[trigger] text_field_at(data@, pos as int, sv)) || !(vstd::utf8::encode_utf8(
                    sv,
                ).len() <= 0xffffff) by {
                if text_field_at(data@, pos as int, sv) {
                    lemma_text_field_shape(data@, pos as int, sv);
                    let dend = pos + dec_bytes(vstd::utf8::encode_utf8(sv).len()).len() as int;
                    assert(dend < n);
                    if j > dend {
                        assert(48 <= data@[dend] <= 57);
                    }
                    if j >= n {
                        assert(false);
                    } else {
                        assert(data@[j as int] == 58);
                        assert(j == dend) by {
                            if j < dend {
                                assert(48 <= data@[j as int] <= 57);
                            }
                        }
                        assert(48 <= data@[pos as int] <= 57);
                    }
                }
            }
        }
        return None;
    }
    let body = j + 1;
    proof {
        assert forall|sv: Seq<char>|
            (#[trigger] text_field_at(data@, pos as int, sv) && vstd::utf8::encode_utf8(sv).len()
                <= 0xffffff) implies (j as int == pos + dec_bytes(
            vstd::utf8::encode_utf8(sv).len(),
        ).len() && len == vstd::utf8::encode_utf8(sv).len() && body + vstd::utf8::encode_utf8(
            sv,
        ).len() <= n) by {
            lemma_text_field_shape(data@, pos as int, sv);
            let bs = vstd::utf8::encode_utf8(sv);
            let d = dec_bytes(bs.len());
            let dend = pos + d.len() as int;
            if j > dend {
                assert(48 <= data@[dend] <= 57);
            }
            assert(j == dend) by {
                if j < dend {
                    assert(48 <= data@[j as int] <= 57);
                }
            }
            assert(data@.subrange(pos as int, j as int) =~= d) by {
                assert forall|y: int|
                    0 <= y < d.len() implies data@[pos as int + y] == d[y] by {
                    assert(data@[pos as int + y] == data@.subrange(
                        pos as int,
                        pos as int + text_field(sv).len() as int,
                    )[y]);
                    assert(text_field(sv)[y] == d[y]);
                }
            }
        }
    }
    if (len as usize) > n - body {
        return None;
    }
    let mut bytes: Vec<u8> = Vec::new();
    let mut k: usize = 0;
    while k < len as usize
        invariant
            0 <= k <= len as usize,
            body + len as usize <= n,
            n == data@.len(),
            bytes@ == data@.subrange(body as int, body as int + k as int),
        decreases len as usize - k,
    {
        bytes.push(data[body + k]);
        proof {
            assert(bytes@ =~= data@.subrange(body as int, body as int + k as int + 1));
        }
        k = k + 1;
    }
    proof {
        assert forall|sv: Seq<char>|
            (#[trigger] text_field_at(data@, pos as int, sv) && vstd::utf8::encode_utf8(sv).len()
                <= 0xffffff) implies (bytes@ == vstd::utf8::encode_utf8(sv)
            && vstd::utf8::valid_utf8(bytes@)) by {
            lemma_text_field_shape(data@, pos as int, sv);
            assert(bytes@ =~= vstd::utf8::encode_utf8(sv));
        }
    }
    match crate::storage::bytes_to_string(bytes) {
        Some(s) => {
            proof {
                assert forall|sv: Seq<char>|
                    (#[trigger] text_field_at(data@, pos as int, sv)
                        && vstd::utf8::encode_utf8(sv).len() <= 0xffffff) implies s@ == sv by {
                    lemma_text_field_shape(data@, pos as int, sv);
                    vstd::utf8::encode_utf8_decode_utf8(s@);
                    vstd::utf8::encode_utf8_decode_utf8(sv);
                }
            }
            Some((s, body + len as usize))
        },
        None => {
            return None;
        },
    }
}

/// The encoded components of a prefix are a prefix of the encoded components.
proof fn lemma_components_bytes_prefix(vector: Seq<i64>, k: int)
    requires
        0 <= k <= vector.len(),
    ensures
        components_bytes(vector.take(k)).len() <= components_bytes(vector).len(),
        forall|x: int|
            0 <= x < components_bytes(vector.take(k)).len() ==> #[trigger] components_bytes(
                vector,
            )[x] == components_bytes(vector.take(k))[x],
    decreases vector.len() - k,
{
    if k < vector.len() {
        lemma_components_bytes_prefix(vector, k + 1);
        assert(vector.take(k + 1).drop_last() =~= vector.take(k));
        assert(vector.take(k + 1).last() == vector[k]);
        assert(components_bytes(vector.take(k + 1)) == components_bytes(vector.take(k))
            + number_field(vector[k] as int));
    } else {
        assert(vector.take(k) =~= vector);
    }
}

/// Any position inside the encoded component prefix reads the same byte in
/// the whole row.
proof fn lemma_embedding_row_index(rv: crate::schema::EmbeddingRecordView, k: int, x: int)
    requires
        0 <= k <= rv.vector.len(),
        0 <= x < components_bytes(rv.vector.take(k)).len(),
    ensures
        embedding_row(rv)[count_field(rv.vector.len()).len() + x] == components_bytes(
            rv.vector.take(k),
        )[x],
{
    lemma_components_bytes_prefix(rv.vector, k);
}

/// The byte length of the encoded component prefix `v.take(k)` plus the
/// leading count field.
pub open spec fn components_prefix_end(vector: Seq<i64>, k: int) -> int {
    count_field(vector.len()).len() + components_bytes(vector.take(k)).len() as int
}

/// Where the trailing norm, creation-time and version fields of an
/// embedding row sit.
proof fn lemma_embedding_row_tail_fields(data: Seq<u8>, rv: crate::schema::EmbeddingRecordView)
    requires
        data == embedding_row(rv),
    ensures
        ({
            let base = components_prefix_end(rv.vector, rv.vector.len() as int);
            let p1 = base + number_field(rv.norm as int).len();
            let p2 = p1 + number_field(rv.created_at as int).len();
            &&& number_field_at(data, base, rv.norm)
            &&& number_field_at(data, p1, rv.created_at)
            &&& number_field_at(data, p2, rv.version as i64)
        }),
{
    let vec = rv.vector;
    assert(vec.take(vec.len() as int) =~= vec);
    let base = components_prefix_end(vec, vec.len() as int);
    let f0 = number_field(rv.norm as int);
    let f1 = number_field(rv.created_at as int);
    let f2 = number_field(rv.version as i64 as int);
    let p1 = base + f0.len();
    let p2 = p1 + f1.len();
    assert(data.subrange(base, base + f0.len() as int) =~= f0) by {
        assert forall|x: int| 0 <= x < f0.len() implies data[base + x] == f0[x] by {
        }
    }
    assert(data.subrange(p1, p1 + f1.len() as int) =~= f1) by {
        assert forall|x: int| 0 <= x < f1.len() implies data[p1 + x] == f1[x] by {
        }
    }
    assert(data.subrange(p2, p2 + f2.len() as int) =~= f2) by {
        assert forall|x: int| 0 <= x < f2.len() implies data[p2 + x] == f2[x] by {
        }
    }
    assert(rv.version as i64 as int == rv.version as int);
}

/// Decodes a stored embedding row back into its fixed-point vector and the
/// stored creation time and schema version; `None` on anything malformed or
/// out of the accepted component range.  On the exact stored row of a
/// well-formed record the decode is forced to return the record's fields.
#[verifier::rlimit(100)]
fn decode_embedding_row(data: &Vec<u8>) -> (r: Option<(Vec<i64>, i64, u8)>)
    ensures
        r matches Some(t) ==> bounded_vector(t.0@),
        forall|rv: crate::schema::EmbeddingRecordView|
            (data@ == #[trigger] embedding_row(rv) && bounded_vector(rv.vector)) ==> (r matches Some(
                t,
            ) && t.0@ == rv.vector && t.1 == rv.created_at && t.2 == rv.version),
{
    proof {
        assert forall|rv: crate::schema::EmbeddingRecordView|
            data@ == #[trigger] embedding_row(rv) && bounded_vector(rv.vector) implies
            number_field_at(data@, 0, rv.vector.len() as i64) by {
            assert(count_field(rv.vector.len()) == number_field(rv.vector.len() as int));
            assert(data@.subrange(0, count_field(rv.vector.len()).len() as int) =~= number_field(
                rv.vector.len() as int,
            ));
        }
    }
    let (count, pos0) = match parse_number(data, 0) {
        Some(p) => p,
        None => {
            return None;
        },
    };
    if count < 0 || count > crate::similarity::MAX_VECTOR_LEN as i64 {
        return None;
    }
    let total = count as usize;
    let mut v: Vec<i64> = Vec::new();
    let mut pos = pos0;
    let mut k: usize = 0;
    while k < total
        invariant
            0 <= k <= total,
            total <= crate::similarity::MAX_VECTOR_LEN,
            v@.len() == k,
            forall|q: int|
                0 <= q < k ==> -crate::similarity::VEC_COMPONENT_LIMIT <= #[trigger] v@[q]
                    <= crate::similarity::VEC_COMPONENT_LIMIT,
            forall|rv: crate::schema::EmbeddingRecordView|
                (data@ == #[trigger] embedding_row(rv) && bounded_vector(rv.vector)) ==> (
                rv.vector.len() == total && pos as int == components_prefix_end(rv.vector, k as int)
                    && v@ == rv.vector.take(k as int)),
        decreases total - k,
    {
        proof {
            assert forall|rv: crate::schema::EmbeddingRecordView|
                data@ == #[trigger] embedding_row(rv) && bounded_vector(rv.vector) implies
                number_field_at(data@, pos as int, rv.vector[k as int]) by {
                let vec = rv.vector;
                let fld = number_field(vec[k as int] as int);
                assert(vec.take(k as int + 1).drop_last() =~= vec.take(k as int));
                assert(vec.take(k as int + 1).last() == vec[k as int]);
                assert(components_bytes(vec.take(k as int + 1)) == components_bytes(
                    vec.take(k as int),
                ) + fld);
                assert(vec.take(vec.len() as int) =~= vec);
                assert(components_bytes(vec) == components_bytes(vec.take(vec.len() as int)));
                lemma_components_bytes_prefix(vec, k as int + 1);
                assert(data@.subrange(pos as int, pos as int + fld.len() as int) =~= fld) by {
                    let base = components_prefix_end(vec, k as int);
                    assert forall|x: int| 0 <= x < fld.len() implies data@[base + x] == fld[x] by {
                        assert(components_bytes(vec.take(k as int + 1))[components_bytes(
                            vec.take(k as int),
                        ).len() + x] == fld[x]);
                        lemma_embedding_row_index(rv, k as int + 1, base - count_field(
                            vec.len(),
                        ).len() + x);
                    }
                }
            }
        }
        let (c, next) = match parse_number(data, pos) {
            Some(p) => p,
            None => {
                return None;
            },
        };
        if c < -crate::similarity::VEC_COMPONENT_LIMIT || c
            > crate::similarity::VEC_COMPONENT_LIMIT {
            return None;
        }
        v.push(c);
        let ghost k0 = k as int;
        let ghost pos_before = pos as int;
        pos = next;
        k = k + 1;
        proof {
            assert forall|rv: crate::schema::EmbeddingRecordView|
                (data@ == #[trigger] embedding_row(rv) && bounded_vector(rv.vector)) implies (
                rv.vector.len() == total && pos as int == components_prefix_end(
                    rv.vector,
                    k as int,
                ) && v@ == rv.vector.take(k as int)) by {
                let vec = rv.vector;
                let fld = number_field(vec[k0] as int);
                assert(vec.take(k0 + 1).drop_last() =~= vec.take(k0));
                assert(vec.take(k0 + 1).last() == vec[k0]);
                assert(components_bytes(vec.take(k0 + 1)) == components_bytes(vec.take(k0)) + fld);
                assert(number_field_at(data@, pos_before, vec[k0]));
                assert(c == vec[k0]);
                assert(pos as int == pos_before + fld.len());
                assert(v@ =~= vec.take(k0).push(vec[k0]));
                assert(v@ =~= vec.take(k as int));
            }
        }
    }
    proof {
        assert forall|rv: crate::schema::EmbeddingRecordView|
            (data@ == #[trigger] embedding_row(rv) && bounded_vector(rv.vector)) implies (v@
            == rv.vector && pos as int == components_prefix_end(rv.vector, rv.vector.len() as int)
            && number_field_at(data@, pos as int, rv.norm)) by {
            assert(rv.vector.take(total as int) =~= rv.vector);
            lemma_embedding_row_tail_fields(data@, rv);
        }
    }
    let (_norm, pos_n) = match parse_number(data, pos) {
        Some(p) => p,
        None => {
            return None;
        },
    };
    proof {
        assert forall|rv: crate::schema::EmbeddingRecordView|
            (data@ == #[trigger] embedding_row(rv) && bounded_vector(rv.vector)) implies
            number_field_at(data@, pos_n as int, rv.created_at) by {
            lemma_embedding_row_tail_fields(data@, rv);
        }
    }
    let (created_at, pos_c) = match parse_number(data, pos_n) {
        Some(p) => p,
        None => {
            return None;
        },
    };
    proof {
        assert forall|rv: crate::schema::EmbeddingRecordView|
            (data@ == #[trigger] embedding_row(rv) && bounded_vector(rv.vector)) implies
            number_field_at(data@, pos_c as int, rv.version as i64) by {
            lemma_embedding_row_tail_fields(data@, rv);
        }
    }
    let (version, _pos_v) = match parse_number(data, pos_c) {
        Some(p) => p,
        None => {
            return None;
        },
    };
    if version < 0 || version > 255 {
        return None;
    }
    Some((v, created_at, version as u8))
}

/// The byte length of the metrics row head up to the feedback list, plus
/// the encoded feedback prefix `take(k)`.
pub open spec fn metrics_feedback_prefix_end(mv: crate::schema::PerformanceMetricsView, k: int) -> int {
    count_field(mv.usage_count as nat).len() + number_field(mv.avg_relevance_score as int).len()
        + number_field(mv.last_recommended as int).len() + count_field(
        mv.feedback_scores.len(),
    ).len() + feedback_bytes(mv.feedback_scores.take(k)).len() as int
}

/// The encoded feedback of a prefix is a prefix of the encoded feedback.
proof fn lemma_feedback_bytes_prefix(fb: Seq<i8>, k: int)
    requires
        0 <= k <= fb.len(),
    ensures
        feedback_bytes(fb.take(k)).len() <= feedback_bytes(fb).len(),
        forall|x: int|
            0 <= x < feedback_bytes(fb.take(k)).len() ==> #[trigger] feedback_bytes(fb)[x]
                == feedback_bytes(fb.take(k))[x],
    decreases fb.len() - k,
{
    if k < fb.len() {
        lemma_feedback_bytes_prefix(fb, k + 1);
        assert(fb.take(k + 1).drop_last() =~= fb.take(k));
        assert(fb.take(k + 1).last() == fb[k]);
        assert(feedback_bytes(fb.take(k + 1)) == feedback_bytes(fb.take(k)) + number_field(
            fb[k] as int,
        ));
    } else {
        assert(fb.take(k) =~= fb);
    }
}

/// Where every field of a stored metrics row sits.
#[verifier::rlimit(100)]
proof fn lemma_metrics_row_fields(data: Seq<u8>, mv: crate::schema::PerformanceMetricsView)
    requires
        data == metrics_row(mv),
        mv.usage_count <= 0x7fffffffffffffff,
        mv.feedback_scores.len() <= 0xffffff,
    ensures
        ({
            let fb = mv.feedback_scores;
            let p1 = count_field(mv.usage_count as nat).len() as int;
            let p2 = p1 + number_field(mv.avg_relevance_score as int).len();
            let p3 = p2 + number_field(mv.last_recommended as int).len();
            let p4 = p3 + count_field(fb.len()).len();
            let p5 = metrics_feedback_prefix_end(mv, fb.len() as int);
            let p6 = p5 + option_field(mv.success_rate).len();
            let p7 = p6 + option_field(mv.avg_latency_ms).len();
            &&& number_field_at(data, 0, mv.usage_count as i64)
            &&& number_field_at(data, p1, mv.avg_relevance_score)
            &&& number_field_at(data, p2, mv.last_recommended)
            &&& number_field_at(data, p3, fb.len() as i64)
            &&& (forall|k: int|
                0 <= k < fb.len() ==> number_field_at(
                    data,
                    metrics_feedback_prefix_end(mv, k),
                    #[trigger] fb[k] as i64,
                ))
            &&& option_field_at(data, p5, mv.success_rate)
            &&& option_field_at(data, p6, mv.avg_latency_ms)
            &&& option_field_at(data, p7, mv.error_rate)
        }),
{
    let fb = mv.feedback_scores;
    assert(count_field(mv.usage_count as nat) == number_field(mv.usage_count as i64 as int));
    assert(count_field(fb.len()) == number_field(fb.len() as i64 as int));
    assert(fb.take(fb.len() as int) =~= fb);
    let f_usage = number_field(mv.usage_count as i64 as int);
    let f_avg = number_field(mv.avg_relevance_score as int);
    let f_last = number_field(mv.last_recommended as int);
    let f_cnt = number_field(fb.len() as i64 as int);
    let p1 = f_usage.len() as int;
    let p2 = p1 + f_avg.len();
    let p3 = p2 + f_last.len();
    let p4 = p3 + f_cnt.len();
    let p5 = metrics_feedback_prefix_end(mv, fb.len() as int);
    let p6 = p5 + option_field(mv.success_rate).len();
    let p7 = p6 + option_field(mv.avg_latency_ms).len();
    assert(data.subrange(0, p1) =~= f_usage);
    assert(data.subrange(p1, p1 + f_avg.len() as int) =~= f_avg);
    assert(data.subrange(p2, p2 + f_last.len() as int) =~= f_last);
    assert(data.subrange(p3, p3 + f_cnt.len() as int) =~= f_cnt);
    assert forall|k: int|
        0 <= k < fb.len() implies number_field_at(
        data,
        metrics_feedback_prefix_end(mv, k),
        #[trigger] fb[k] as i64,
    ) by {
        let fld = number_field(fb[k] as int);
        assert(fb.take(k + 1).drop_last() =~= fb.take(k));
        assert(fb.take(k + 1).last() == fb[k]);
        assert(feedback_bytes(fb.take(k + 1)) == feedback_bytes(fb.take(k)) + fld);
        lemma_feedback_bytes_prefix(fb, k + 1);
        let base = metrics_feedback_prefix_end(mv, k);
        assert(data.subrange(base, base + fld.len() as int) =~= fld) by {
            assert forall|x: int| 0 <= x < fld.len() implies data[base + x] == fld[x] by {
                assert(feedback_bytes(fb.take(k + 1))[feedback_bytes(fb.take(k)).len() + x]
                    == fld[x]);
                assert(feedback_bytes(fb)[feedback_bytes(fb.take(k)).len() + x] == feedback_bytes(
                    fb.take(k + 1),
                )[feedback_bytes(fb.take(k)).len() + x]);
            }
        }
        assert(fb[k] as i64 as int == fb[k] as int);
    }
    assert(data.subrange(p5, p5 + option_field(mv.success_rate).len() as int) =~= option_field(
        mv.success_rate,
    ));
    assert(data.subrange(p6, p6 + option_field(mv.avg_latency_ms).len() as int) =~= option_field(
        mv.avg_latency_ms,
    ));
    assert(data.subrange(p7, p7 + option_field(mv.error_rate).len() as int) =~= option_field(
        mv.error_rate,
    ));
    assert(mv.usage_count as i64 as int == mv.usage_count as int);
    assert(fb.len() as i64 as int == fb.len() as int);
}

/// The bytes are exactly the stored row of well-formed metrics whose
/// counters fit the decoder.
pub open spec fn metrics_row_at(data: Seq<u8>, mv: crate::schema::PerformanceMetricsView) -> bool {
    &&& data == metrics_row(mv)
    &&& metrics_wf(mv)
    &&& mv.usage_count <= 0x7fffffffffffffff
    &&& mv.feedback_scores.len() <= 0xffffff
}

/// Decodes a stored metrics row; `None` on anything malformed or violating
/// the metrics invariant.  On the exact stored row of well-formed metrics
/// the decode is forced to return them.
#[verifier::rlimit(100)]
fn decode_metrics_row(data: &Vec<u8>) -> (r: Option<PerformanceMetrics>)
    ensures
        r matches Some(m) ==> metrics_wf(m@),
        forall|mv: crate::schema::PerformanceMetricsView|
            #[trigger] metrics_row_at(data@, mv) ==> (r matches Some(m) && m@ == mv),
{
    proof {
        assert forall|mv: crate::schema::PerformanceMetricsView|
            #[trigger] metrics_row_at(data@, mv) implies number_field_at(
            data@,
            0,
            mv.usage_count as i64,
        ) by {
            lemma_metrics_row_fields(data@, mv);
        }
    }
    let (usage, pos1) = match parse_number(data, 0) {
        Some(p) => p,
        None => {
            return None;
        },
    };
    if usage < 0 {
        return None;
    }
    proof {
        assert forall|mv: crate::schema::PerformanceMetricsView|
            #[trigger] metrics_row_at(data@, mv) implies number_field_at(
            data@,
            pos1 as int,
            mv.avg_relevance_score,
        ) by {
            lemma_metrics_row_fields(data@, mv);
        }
    }
    let (avg, pos2) = match parse_number(data, pos1) {
        Some(p) => p,
        None => {
            return None;
        },
    };
    if avg < -crate::SCALE || avg > crate::SCALE {
        return None;
    }
    proof {
        assert forall|mv: crate::schema::PerformanceMetricsView|
            #[trigger] metrics_row_at(data@, mv) implies number_field_at(
            data@,
            pos2 as int,
            mv.last_recommended,
        ) by {
            lemma_metrics_row_fields(data@, mv);
        }
    }
    let (last, pos3) = match parse_number(data, pos2) {
        Some(p) => p,
        None => {
            return None;
        },
    };
    proof {
        assert forall|mv: crate::schema::PerformanceMetricsView|
            #[trigger] metrics_row_at(data@, mv) implies number_field_at(
            data@,
            pos3 as int,
            mv.feedback_scores.len() as i64,
        ) by {
            lemma_metrics_row_fields(data@, mv);
        }
    }
    let (fb_count, pos4) = match parse_number(data, pos3) {
        Some(p) => p,
        None => {
            return None;
        },
    };
    if fb_count < 0 || fb_count > 0xffffff {
        return None;
    }
    let total = fb_count as usize;
    let mut feedback: Vec<i8> = Vec::new();
    let mut pos = pos4;
    let mut k: usize = 0;
    while k < total
        invariant
            0 <= k <= total,
            feedback@.len() == k,
            forall|q: int| 0 <= q < k ==> -1 <= #[trigger] feedback@[q] <= 1,
            forall|mv: crate::schema::PerformanceMetricsView|
                #[trigger] metrics_row_at(data@, mv) ==> (mv.feedback_scores.len() == total
                    && pos as int == metrics_feedback_prefix_end(mv, k as int) && feedback@
                    == mv.feedback_scores.take(k as int)),
        decreases total - k,
    {
        proof {
            assert forall|mv: crate::schema::PerformanceMetricsView|
                #[trigger] metrics_row_at(data@, mv) implies number_field_at(
                data@,
                pos as int,
                mv.feedback_scores[k as int] as i64,
            ) by {
                lemma_metrics_row_fields(data@, mv);
            }
        }
        let (f, next) = match parse_number(data, pos) {
            Some(p) => p,
            None => {
                return None;
            },
        };
        if f < -1 || f > 1 {
            return None;
        }
        feedback.push(f as i8);
        let ghost k0 = k as int;
        pos = next;
        k = k + 1;
        proof {
            assert forall|mv: crate::schema::PerformanceMetricsView|
                #[trigger] metrics_row_at(data@, mv) implies (mv.feedback_scores.len() == total
                && pos as int == metrics_feedback_prefix_end(mv, k as int) && feedback@
                == mv.feedback_scores.take(k as int)) by {
                let fb = mv.feedback_scores;
                let fld = number_field(fb[k0] as int);
                assert(fb.take(k0 + 1).drop_last() =~= fb.take(k0));
                assert(fb.take(k0 + 1).last() == fb[k0]);
                assert(feedback_bytes(fb.take(k0 + 1)) == feedback_bytes(fb.take(k0)) + fld);
                assert(fb[k0] as i64 as int == fb[k0] as int);
                assert(f == fb[k0] as i64);
                assert(f as i8 == fb[k0]);
                assert(feedback@ =~= fb.take(k0).push(fb[k0]));
                assert(feedback@ =~= fb.take(k as int));
            }
        }
    }
    proof {
        assert forall|mv: crate::schema::PerformanceMetricsView|
            #[trigger] metrics_row_at(data@, mv) implies option_field_at(
            data@,
            pos as int,
            mv.success_rate,
        ) && feedback@ == mv.feedback_scores by {
            lemma_metrics_row_fields(data@, mv);
            assert(mv.feedback_scores.take(total as int) =~= mv.feedback_scores);
        }
    }
    let (success_rate, pos5) = match parse_option(data, pos) {
        Some(p) => p,
        None => {
            return None;
        },
    };
    proof {
        assert forall|mv: crate::schema::PerformanceMetricsView|
            #[trigger] metrics_row_at(data@, mv) implies option_field_at(
            data@,
            pos5 as int,
            mv.avg_latency_ms,
        ) by {
            lemma_metrics_row_fields(data@, mv);
        }
    }
    let (avg_latency_ms, pos6) = match parse_option(data, pos5) {
        Some(p) => p,
        None => {
            return None;
        },
    };
    proof {
        assert forall|mv: crate::schema::PerformanceMetricsView|
            #[trigger] metrics_row_at(data@, mv) implies option_field_at(
            data@,
            pos6 as int,
            mv.error_rate,
        ) by {
            lemma_metrics_row_fields(data@, mv);
        }
    }
    let (error_rate, _pos7) = match parse_option(data, pos6) {
        Some(p) => p,
        None => {
            return None;
        },
    };
    let m = PerformanceMetrics {
        usage_count: usage as u64,
        avg_relevance_score: avg,
        last_recommended: last,
        feedback_scores: feedback,
        success_rate,
        avg_latency_ms,
        error_rate,
    };
    proof {
        assert forall|mv: crate::schema::PerformanceMetricsView|
            #[trigger] metrics_row_at(data@, mv) implies m@ == mv by {
            assert(usage as u64 == mv.usage_count);
        }
    }
    Some(m)
}

/// The bytes at `pos` hold exactly the stored option field of `ov`.
pub open spec fn option_field_at(data: Seq<u8>, pos: int, ov: Option<i64>) -> bool {
    &&& pos >= 0
    &&& pos + option_field(ov).len() <= data.len()
    &&& data.subrange(pos, pos + option_field(ov).len() as int) == option_field(ov)
}

/// What a stored option field forces on the bytes at `pos`.
proof fn lemma_option_field_shape(data: Seq<u8>, pos: int, ov: Option<i64>)
    requires
        option_field_at(data, pos, ov),
    ensures
        ov is None ==> number_field_at(data, pos, 0),
        ov matches Some(v) ==> number_field_at(data, pos, 1) && number_field_at(
            data,
            pos + number_field(1int).len(),
            v,
        ),
{
    match ov {
        None => {
            assert(data.subrange(pos, pos + number_field(0int).len() as int) =~= number_field(
                0int,
            ));
        },
        Some(v) => {
            let f0 = number_field(1int);
            let f1 = number_field(v as int);
            let whole = option_field(ov);
            assert(data.subrange(pos, pos + f0.len() as int) =~= f0) by {
                assert forall|x: int| 0 <= x < f0.len() implies data[pos + x] == f0[x] by {
                    assert(data[pos + x] == data.subrange(pos, pos + whole.len() as int)[x]);
                    assert(whole[x] == f0[x]);
                }
            }
            assert(data.subrange(pos + f0.len() as int, pos + f0.len() as int + f1.len() as int)
                =~= f1) by {
                assert forall|x: int|
                    0 <= x < f1.len() implies data[pos + f0.len() as int + x] == f1[x] by {
                    assert(data[pos + f0.len() as int + x] == data.subrange(
                        pos,
                        pos + whole.len() as int,
                    )[f0.len() + x]);
                    assert(whole[f0.len() + x] == f1[x]);
                }
            }
        },
    }
}

/// Reads an optional number: a presence flag line, then the value when
/// present.
fn parse_option(data: &Vec<u8>, pos: usize) -> (r: Option<(Option<i64>, usize)>)
    ensures
        r matches Some(p) ==> pos < p.1 <= data@.len(),
        forall|ov: Option<i64>|
            #[trigger] option_field_at(data@, pos as int, ov) ==> (r matches Some(p) && p.0 == ov
                && p.1 as int == pos + option_field(ov).len()),
{
    proof {
        assert forall|ov: Option<i64>|
            #[trigger] option_field_at(data@, pos as int, ov) implies (ov is None
            ==> number_field_at(data@, pos as int, 0)) && (ov matches Some(v) ==> number_field_at(
            data@,
            pos as int,
            1,
        ) && number_field_at(data@, pos as int + number_field(1int).len(), v)) by {
            lemma_option_field_shape(data@, pos as int, ov);
        }
    }
    let (flag, pos1) = match parse_number(data, pos) {
        Some(p) => p,
        None => {
            return None;
        },
    };
    if flag == 0 {
        return Some((None, pos1));
    }
    if flag != 1 {
        return None;
    }
    let (v, pos2) = match parse_number(data, pos1) {
        Some(p) => p,
        None => {
            return None;
        },
    };
    Some((Some(v), pos2))
}

/// Every text in the list has an encoding that fits the length cap.
pub open spec fn texts_fit(v: Seq<Seq<char>>) -> bool {
    forall|i: int|
        0 <= i < v.len() ==> vstd::utf8::encode_utf8(#[trigger] v[i]).len() <= 0xffffff
}

/// The byte length of a pattern row's head, up to the path list.
pub open spec fn pattern_head_end(pv: crate::pattern_extractor::PatternView) -> int {
    text_field(pv.id).len() + text_field(pv.description).len() + text_field(
        pv.commit_sha,
    ).len() + number_field(pv.timestamp as int).len() + count_field(
        pv.file_paths.len(),
    ).len() as int
}

/// The byte position after the encoded path prefix `take(k)`.
pub open spec fn pattern_paths_prefix_end(
    pv: crate::pattern_extractor::PatternView,
    k: int,
) -> int {
    pattern_head_end(pv) + texts_bytes(pv.file_paths.take(k)).len() as int
}

/// The byte position after the encoded tag prefix `take(k)`.
pub open spec fn pattern_tags_prefix_end(pv: crate::pattern_extractor::PatternView, k: int) -> int {
    pattern_paths_prefix_end(pv, pv.file_paths.len() as int) + count_field(
        pv.tags.len(),
    ).len() as int + texts_bytes(pv.tags.take(k)).len() as int
}

/// The bytes are exactly the stored row of a pattern whose fields fit the
/// decoder's length caps.
pub open spec fn pattern_row_at(data: Seq<u8>, pv: crate::pattern_extractor::PatternView) -> bool {
    &&& data == pattern_row(pv)
    &&& vstd::utf8::encode_utf8(pv.id).len() <= 0xffffff
    &&& vstd::utf8::encode_utf8(pv.description).len() <= 0xffffff
    &&& vstd::utf8::encode_utf8(pv.commit_sha).len() <= 0xffffff
    &&& pv.file_paths.len() <= 0xffffff
    &&& texts_fit(pv.file_paths)
    &&& pv.tags.len() <= 0xffffff
    &&& texts_fit(pv.tags)
}

/// The encoded texts of a prefix are a prefix of the encoded texts.
proof fn lemma_texts_bytes_prefix(v: Seq<Seq<char>>, k: int)
    requires
        0 <= k <= v.len(),
    ensures
        texts_bytes(v.take(k)).len() <= texts_bytes(v).len(),
        forall|x: int|
            0 <= x < texts_bytes(v.take(k)).len() ==> #[trigger] texts_bytes(v)[x] == texts_bytes(
                v.take(k),
            )[x],
    decreases v.len() - k,
{
    if k < v.len() {
        lemma_texts_bytes_prefix(v, k + 1);
        assert(v.take(k + 1).drop_last() =~= v.take(k));
        assert(v.take(k + 1).last() == v[k]);
        assert(texts_bytes(v.take(k + 1)) == texts_bytes(v.take(k)) + text_field(v[k]));
    } else {
        assert(v.take(k) =~= v);
    }
}

/// Where every field of a stored pattern row sits.
#[verifier::rlimit(100)]
proof fn lemma_pattern_row_fields(data: Seq<u8>, pv: crate::pattern_extractor::PatternView)
    requires
        data == pattern_row(pv),
        pv.file_paths.len() <= 0xffffff,
        pv.tags.len() <= 0xffffff,
    ensures
        ({
            let q1 = text_field(pv.id).len() as int;
            let q2 = q1 + text_field(pv.description).len();
            let q3 = q2 + text_field(pv.commit_sha).len();
            let q4 = q3 + number_field(pv.timestamp as int).len();
            let q5 = pattern_paths_prefix_end(pv, pv.file_paths.len() as int);
            &&& text_field_at(data, 0, pv.id)
            &&& text_field_at(data, q1, pv.description)
            &&& text_field_at(data, q2, pv.commit_sha)
            &&& number_field_at(data, q3, pv.timestamp)
            &&& number_field_at(data, q4, pv.file_paths.len() as i64)
            &&& (forall|k: int|
                0 <= k < pv.file_paths.len() ==> text_field_at(
                    data,
                    pattern_paths_prefix_end(pv, k),
                    #[trigger] pv.file_paths[k],
                ))
            &&& number_field_at(data, q5, pv.tags.len() as i64)
            &&& (forall|k: int|
                0 <= k < pv.tags.len() ==> text_field_at(
                    data,
                    pattern_tags_prefix_end(pv, k),
                    #[trigger] pv.tags[k],
                ))
        }),
{
    assert(count_field(pv.file_paths.len()) == number_field(pv.file_paths.len() as i64 as int));
    assert(count_field(pv.tags.len()) == number_field(pv.tags.len() as i64 as int));
    assert(pv.file_paths.len() as i64 as int == pv.file_paths.len() as int);
    assert(pv.tags.len() as i64 as int == pv.tags.len() as int);
    assert(pv.file_paths.take(pv.file_paths.len() as int) =~= pv.file_paths);
    assert(pv.tags.take(pv.tags.len() as int) =~= pv.tags);
    let q1 = text_field(pv.id).len() as int;
    let q2 = q1 + text_field(pv.description).len();
    let q3 = q2 + text_field(pv.commit_sha).len();
    let q4 = q3 + number_field(pv.timestamp as int).len();
    let q5 = pattern_paths_prefix_end(pv, pv.file_paths.len() as int);
    assert(data.subrange(0, q1) =~= text_field(pv.id));
    assert(data.subrange(q1, q1 + text_field(pv.description).len() as int) =~= text_field(
        pv.description,
    ));
    assert(data.subrange(q2, q2 + text_field(pv.commit_sha).len() as int) =~= text_field(
        pv.commit_sha,
    ));
    assert(data.subrange(q3, q3 + number_field(pv.timestamp as int).len() as int) =~= number_field(
        pv.timestamp as int,
    ));
    assert(data.subrange(q4, q4 + count_field(pv.file_paths.len()).len() as int) =~= count_field(
        pv.file_paths.len(),
    ));
    assert forall|k: int|
        0 <= k < pv.file_paths.len() implies text_field_at(
        data,
        pattern_paths_prefix_end(pv, k),
        #[trigger] pv.file_paths[k],
    ) by {
        let v = pv.file_paths;
        let fld = text_field(v[k]);
        assert(v.take(k + 1).drop_last() =~= v.take(k));
        assert(v.take(k + 1).last() == v[k]);
        assert(texts_bytes(v.take(k + 1)) == texts_bytes(v.take(k)) + fld);
        lemma_texts_bytes_prefix(v, k + 1);
        let base = pattern_paths_prefix_end(pv, k);
        assert(data.subrange(base, base + fld.len() as int) =~= fld) by {
            assert forall|x: int| 0 <= x < fld.len() implies data[base + x] == fld[x] by {
                assert(texts_bytes(v.take(k + 1))[texts_bytes(v.take(k)).len() + x] == fld[x]);
                assert(texts_bytes(v)[texts_bytes(v.take(k)).len() + x] == texts_bytes(
                    v.take(k + 1),
                )[texts_bytes(v.take(k)).len() + x]);
            }
        }
    }
    assert(data.subrange(q5, q5 + count_field(pv.tags.len()).len() as int) =~= count_field(
        pv.tags.len(),
    ));
    assert forall|k: int|
        0 <= k < pv.tags.len() implies text_field_at(
        data,
        pattern_tags_prefix_end(pv, k),
        #[trigger] pv.tags[k],
    ) by {
        let v = pv.tags;
        let fld = text_field(v[k]);
        assert(v.take(k + 1).drop_last() =~= v.take(k));
        assert(v.take(k + 1).last() == v[k]);
        assert(texts_bytes(v.take(k + 1)) == texts_bytes(v.take(k)) + fld);
        lemma_texts_bytes_prefix(v, k + 1);
        let base = pattern_tags_prefix_end(pv, k);
        assert(data.subrange(base, base + fld.len() as int) =~= fld) by {
            assert forall|x: int| 0 <= x < fld.len() implies data[base + x] == fld[x] by {
                assert(texts_bytes(v.take(k + 1))[texts_bytes(v.take(k)).len() + x] == fld[x]);
                assert(texts_bytes(v)[texts_bytes(v.take(k)).len() + x] == texts_bytes(
                    v.take(k + 1),
                )[texts_bytes(v.take(k)).len() + x]);
            }
        }
    }
}

/// Decodes a stored pattern row; `None` on anything malformed.  On the
/// exact stored row of a pattern that fits the decoder's length caps, the
/// decode is forced to return that pattern.
#[verifier::rlimit(100)]
fn decode_pattern_row(data: &Vec<u8>) -> (r: Option<Pattern>)
    ensures
        forall|pv: crate::pattern_extractor::PatternView|
            #[trigger] pattern_row_at(data@, pv) ==> (r matches Some(p) && p@ == pv),
{
    proof {
        assert forall|pv: crate::pattern_extractor::PatternView|
            #[trigger] pattern_row_at(data@, pv) implies text_field_at(data@, 0, pv.id)
            && vstd::utf8::encode_utf8(pv.id).len() <= 0xffffff by {
            lemma_pattern_row_fields(data@, pv);
        }
    }
    let (id, pos1) = match parse_text(data, 0) {
        Some(p) => p,
        None => {
            return None;
        },
    };
    proof {
        assert forall|pv: crate::pattern_extractor::PatternView|
            #[trigger] pattern_row_at(data@, pv) implies text_field_at(
            data@,
            pos1 as int,
            pv.description,
        ) && vstd::utf8::encode_utf8(pv.description).len() <= 0xffffff by {
            lemma_pattern_row_fields(data@, pv);
        }
    }
    let (description, pos2) = match parse_text(data, pos1) {
        Some(p) => p,
        None => {
            return None;
        },
    };
    proof {
        assert forall|pv: crate::pattern_extractor::PatternView|
            #[trigger] pattern_row_at(data@, pv) implies text_field_at(
            data@,
            pos2 as int,
            pv.commit_sha,
        ) && vstd::utf8::encode_utf8(pv.commit_sha).len() <= 0xffffff by {
            lemma_pattern_row_fields(data@, pv);
        }
    }
    let (commit_sha, pos3) = match parse_text(data, pos2) {
        Some(p) => p,
        None => {
            return None;
        },
    };
    proof {
        assert forall|pv: crate::pattern_extractor::PatternView|
            #[trigger] pattern_row_at(data@, pv) implies number_field_at(
            data@,
            pos3 as int,
            pv.timestamp,
        ) by {
            lemma_pattern_row_fields(data@, pv);
        }
    }
    let (timestamp, pos4) = match parse_number(data, pos3) {
        Some(p) => p,
        None => {
            return None;
        },
    };
    proof {
        assert forall|pv: crate::pattern_extractor::PatternView|
            #[trigger] pattern_row_at(data@, pv) implies number_field_at(
            data@,
            pos4 as int,
            pv.file_paths.len() as i64,
        ) by {
            lemma_pattern_row_fields(data@, pv);
        }
    }
    let (path_count, pos5) = match parse_number(data, pos4) {
        Some(p) => p,
        None => {
            return None;
        },
    };
    if path_count < 0 || path_count > 0xffffff {
        return None;
    }
    let ptotal = path_count as usize;
    let mut file_paths: Vec<String> = Vec::new();
    let mut pos = pos5;
    let mut k: usize = 0;
    while k < ptotal
        invariant
            0 <= k <= ptotal,
            file_paths@.len() == k,
            forall|pv: crate::pattern_extractor::PatternView|
                #[trigger] pattern_row_at(data@, pv) ==> (pv.file_paths.len() == ptotal
                    && pos as int == pattern_paths_prefix_end(pv, k as int)
                    && file_paths.deep_view() == pv.file_paths.take(k as int)),
        decreases ptotal - k,
    {
        proof {
            assert forall|pv: crate::pattern_extractor::PatternView|
                #[trigger] pattern_row_at(data@, pv) implies text_field_at(
                data@,
                pos as int,
                pv.file_paths[k as int],
            ) && vstd::utf8::encode_utf8(pv.file_paths[k as int]).len() <= 0xffffff by {
                lemma_pattern_row_fields(data@, pv);
            }
        }
        let (path, next) = match parse_text(data, pos) {
            Some(p) => p,
            None => {
                return None;
            },
        };
        let ghost k0 = k as int;
        let ghost dv0 = file_paths.deep_view();
        file_paths.push(path);
        pos = next;
        k = k + 1;
        proof {
            assert forall|pv: crate::pattern_extractor::PatternView|
                #[trigger] pattern_row_at(data@, pv) implies (pv.file_paths.len() == ptotal
                && pos as int == pattern_paths_prefix_end(pv, k as int) && file_paths.deep_view()
                == pv.file_paths.take(k as int)) by {
                let v = pv.file_paths;
                assert(v.take(k0 + 1).drop_last() =~= v.take(k0));
                assert(v.take(k0 + 1).last() == v[k0]);
                assert(texts_bytes(v.take(k0 + 1)) == texts_bytes(v.take(k0)) + text_field(v[k0]));
                assert(file_paths.deep_view() =~= dv0.push(file_paths@[k0]@));
                assert(file_paths.deep_view() =~= v.take(k as int));
            }
        }
    }
    proof {
        assert forall|pv: crate::pattern_extractor::PatternView|
            #[trigger] pattern_row_at(data@, pv) implies number_field_at(
            data@,
            pos as int,
            pv.tags.len() as i64,
        ) && file_paths.deep_view() == pv.file_paths by {
            lemma_pattern_row_fields(data@, pv);
            assert(pv.file_paths.take(ptotal as int) =~= pv.file_paths);
        }
    }
    let (tag_count, pos6) = match parse_number(data, pos) {
        Some(p) => p,
        None => {
            return None;
        },
    };
    if tag_count < 0 || tag_count > 0xffffff {
        return None;
    }
    let ttotal = tag_count as usize;
    let mut tags: Vec<String> = Vec::new();
    let mut tpos = pos6;
    let mut t: usize = 0;
    while t < ttotal
        invariant
            0 <= t <= ttotal,
            tags@.len() == t,
            forall|pv: crate::pattern_extractor::PatternView|
                #[trigger] pattern_row_at(data@, pv) ==> (pv.tags.len() == ttotal && tpos as int
                    == pattern_tags_prefix_end(pv, t as int) && tags.deep_view() == pv.tags.take(
                    t as int,
                ) && file_paths.deep_view() == pv.file_paths),
        decreases ttotal - t,
    {
        proof {
            assert forall|pv: crate::pattern_extractor::PatternView|
                #[trigger] pattern_row_at(data@, pv) implies text_field_at(
                data@,
                tpos as int,
                pv.tags[t as int],
            ) && vstd::utf8::encode_utf8(pv.tags[t as int]).len() <= 0xffffff by {
                lemma_pattern_row_fields(data@, pv);
            }
        }
        let (tag, next) = match parse_text(data, tpos) {
            Some(p) => p,
            None => {
                return None;
            },
        };
        let ghost t0 = t as int;
        let ghost dv0 = tags.deep_view();
        tags.push(tag);
        tpos = next;
        t = t + 1;
        proof {
            assert forall|pv: crate::pattern_extractor::PatternView|
                #[trigger] pattern_row_at(data@, pv) implies (pv.tags.len() == ttotal
                && tpos as int == pattern_tags_prefix_end(pv, t as int) && tags.deep_view()
                == pv.tags.take(t as int) && file_paths.deep_view() == pv.file_paths) by {
                let v = pv.tags;
                assert(v.take(t0 + 1).drop_last() =~= v.take(t0));
                assert(v.take(t0 + 1).last() == v[t0]);
                assert(texts_bytes(v.take(t0 + 1)) == texts_bytes(v.take(t0)) + text_field(v[t0]));
                assert(tags.deep_view() =~= dv0.push(tags@[t0]@));
                assert(tags.deep_view() =~= v.take(t as int));
            }
        }
    }
    let p = Pattern { id, description, commit_sha, timestamp, file_paths, tags };
    proof {
        assert forall|pv: crate::pattern_extractor::PatternView|
            #[trigger] pattern_row_at(data@, pv) implies p@ == pv by {
            assert(pv.tags.take(ttotal as int) =~= pv.tags);
        }
    }
    Some(p)
}

/// The first row stored under a key with view `k@`, if any.
fn find_row<'a>(rows: &'a Vec<(String, Vec<u8>)>, k: &String) -> (r: Option<&'a Vec<u8>>)
    ensures
        match r {
            Some(b) => assoc_get(rows@, k@) matches Some(x) && x == *b,
            None => assoc_get(rows@, k@) is None,
        },
{
    let mut i: usize = 0;
    while i < rows.len()
        invariant
            0 <= i <= rows@.len(),
            forall|j: int| 0 <= j < i ==> rows@[j].0@ != k@,
        decreases rows@.len() - i,
    {
        if rows[i].0 == *k {
            proof {
                lemma_assoc_get_index(rows@, k@, i as int);
            }
            return Some(&rows[i].1);
        }
        i = i + 1;
    }
    proof {
        lemma_assoc_get_none(rows@, k@);
    }
    None
}

} // verus!
