//! Laws that hold of every input.
use crate::grammar::{
    is_white_space, key_index, keys_distinct, lemma_key_index_first, lookup, members_spec,
    object_spec, put, string_body, strip_ws, value_spec,
};
use crate::value::Json;
use vstd::prelude::*;

verus! {

/// No white space is left after stripping.
pub proof fn lemma_strip_ws_clean(s: Seq<char>)
    ensures
        forall|i: int| 0 <= i < strip_ws(s).len() ==> !is_white_space(#[trigger] strip_ws(s)[i]),
    decreases s.len(),
{
    if s.len() > 0 {
        let p = strip_ws(s.drop_last());
        lemma_strip_ws_clean(s.drop_last());
        if !is_white_space(s.last()) {
            assert forall|i: int| 0 <= i < p.len() + 1 implies !is_white_space(
                #[trigger] p.push(s.last())[i],
            ) by {
                if i < p.len() {
                    assert(p.push(s.last())[i] == p[i]);
                }
            }
        }
    }
}

/// Stripping text that holds no white space leaves it as it is.
pub proof fn lemma_strip_ws_keeps_clean(s: Seq<char>)
    requires
        forall|i: int| 0 <= i < s.len() ==> !is_white_space(#[trigger] s[i]),
    ensures
        strip_ws(s) == s,
    decreases s.len(),
{
    if s.len() > 0 {
        lemma_strip_ws_keeps_clean(s.drop_last());
        assert(s.drop_last().push(s.last()) =~= s);
    }
}

/// Removing white space is idempotent: stripping text a second time changes nothing.
pub proof fn lemma_strip_ws_idempotent(s: Seq<char>)
    ensures
        strip_ws(strip_ws(s)) == strip_ws(s),
{
    lemma_strip_ws_clean(s);
    lemma_strip_ws_keeps_clean(strip_ws(s));
}

/// After `put`, the key maps to the new value, every other key keeps its value, and keys
/// that were distinct stay distinct.
pub proof fn lemma_put(entries: Seq<(Seq<char>, Json)>, k: Seq<char>, v: Json)
    ensures
        lookup(put(entries, k, v), k) == Some(v),
        forall|other: Seq<char>|
            other != k ==> #[trigger] lookup(put(entries, k, v), other) == lookup(entries, other),
        keys_distinct(entries) ==> keys_distinct(put(entries, k, v)),
{
    let after = put(entries, k, v);
    match key_index(entries, k) {
        Some(i) => {
            lemma_key_index_some(entries, k);
            assert forall|j: int| 0 <= j < after.len() implies #[trigger] after[j].0 == entries[j].0 by {}
            lemma_same_keys(entries, after, k);
            assert forall|other: Seq<char>| other != k implies #[trigger] lookup(after, other)
                == lookup(entries, other) by {
                lemma_same_keys(entries, after, other);
                if let Some(m) = key_index(entries, other) {
                    lemma_key_index_some(entries, other);
                }
            }
        },
        None => {
            lemma_key_index_push(entries, k, v);
            assert forall|other: Seq<char>| other != k implies #[trigger] lookup(after, other)
                == lookup(entries, other) by {
                lemma_key_index_push_other(entries, k, v, other);
            }
            if keys_distinct(entries) {
                assert forall|a: int, b: int|
                    0 <= a < after.len() && 0 <= b < after.len() && a != b implies after[a].0
                    != after[b].0 by {
                    if a == entries.len() {
                        assert(entries[b].0 != k);
                    } else if b == entries.len() {
                        assert(entries[a].0 != k);
                    }
                }
            }
        },
    }
}

/// Entries read into a list whose keys are distinct leave them distinct.
pub proof fn lemma_members_distinct(s: Seq<char>, acc: Seq<(Seq<char>, Json)>)
    requires
        keys_distinct(acc),
    ensures
        members_spec(s, acc) matches Ok((entries, _)) ==> keys_distinct(entries),
    decreases s.len(),
{
    if let Ok((key, k)) = string_body(s) {
        if k < s.len() && s[k as int] == ':' {
            if let Ok((v, n)) = value_spec(s.skip(k + 1 as int)) {
                lemma_put(acc, key, v);
                let j = k + 1 + n;
                if j < s.len() && s[j as int] == ',' {
                    lemma_members_distinct(s.skip(j + 1 as int), put(acc, key, v));
                }
            }
        }
    }
}

/// An object read from the input holds each key once: a repeated key replaces the value it
/// had.
pub proof fn lemma_object_keys_distinct(s: Seq<char>)
    ensures
        object_spec(s) matches Ok((Json::Object(entries), _)) ==> keys_distinct(entries),
{
    if s.len() > 0 && s[0] == '{' && !(s.len() > 1 && s[1] == '}') {
        lemma_members_distinct(s.drop_first(), Seq::empty());
    }
}

/// What `key_index` names when it names an index.
proof fn lemma_key_index_some(entries: Seq<(Seq<char>, Json)>, k: Seq<char>)
    requires
        key_index(entries, k) is Some,
    ensures
        ({
            let i = key_index(entries, k)->Some_0;
            &&& 0 <= i < entries.len()
            &&& entries[i].0 == k
            &&& forall|j: int| 0 <= j < i ==> entries[j].0 != k
        }),
{
    let w = choose|i: int| 0 <= i < entries.len() && entries[i].0 == k;
    lemma_first_exists(entries, k, w);
}

/// Where some entry has key `k`, a first one does.
proof fn lemma_first_exists(entries: Seq<(Seq<char>, Json)>, k: Seq<char>, w: int)
    requires
        0 <= w < entries.len(),
        entries[w].0 == k,
    ensures
        exists|i: int|
            0 <= i < entries.len() && entries[i].0 == k && forall|j: int|
                0 <= j < i ==> entries[j].0 != k,
    decreases w,
{
    if exists|j: int| 0 <= j < w && entries[j].0 == k {
        let j = choose|j: int| 0 <= j < w && entries[j].0 == k;
        lemma_first_exists(entries, k, j);
    } else {
        assert(forall|j: int| 0 <= j < w ==> entries[j].0 != k);
    }
}

/// Two lists with the same keys at the same places give the same `key_index`.
proof fn lemma_same_keys(a: Seq<(Seq<char>, Json)>, b: Seq<(Seq<char>, Json)>, k: Seq<char>)
    requires
        a.len() == b.len(),
        forall|j: int| 0 <= j < b.len() ==> #[trigger] b[j].0 == a[j].0,
    ensures
        key_index(a, k) == key_index(b, k),
{
    if exists|i: int| 0 <= i < a.len() && a[i].0 == k {
        let w = choose|i: int| 0 <= i < a.len() && a[i].0 == k;
        assert(b[w].0 == k);
        lemma_key_index_some(a, k);
        lemma_key_index_some(b, k);
        let x = key_index(a, k)->Some_0;
        let y = key_index(b, k)->Some_0;
        if x < y {
            assert(b[x].0 == a[x].0);
        }
        if y < x {
            assert(b[y].0 == a[y].0);
        }
    } else {
        assert forall|i: int| 0 <= i < b.len() implies b[i].0 != k by {
            assert(b[i].0 == a[i].0);
        }
    }
}

/// A key appended at the end of a list that lacked it is found there.
proof fn lemma_key_index_push(entries: Seq<(Seq<char>, Json)>, k: Seq<char>, v: Json)
    requires
        key_index(entries, k) is None,
    ensures
        key_index(entries.push((k, v)), k) == Some(entries.len() as int),
        forall|j: int| 0 <= j < entries.len() ==> entries[j].0 != k,
{
    let after = entries.push((k, v));
    assert forall|j: int| 0 <= j < entries.len() implies entries[j].0 != k by {
        if entries[j].0 == k {
            assert(exists|i: int| 0 <= i < entries.len() && entries[i].0 == k);
        }
    }
    lemma_key_index_first(after, k, entries.len() as int);
}

/// Appending an entry of key `k` leaves the lookup of every other key as it was.
proof fn lemma_key_index_push_other(
    entries: Seq<(Seq<char>, Json)>,
    k: Seq<char>,
    v: Json,
    other: Seq<char>,
)
    requires
        other != k,
    ensures
        lookup(entries.push((k, v)), other) == lookup(entries, other),
{
    let after = entries.push((k, v));
    if exists|i: int| 0 <= i < entries.len() && entries[i].0 == other {
        lemma_key_index_some(entries, other);
        let i = key_index(entries, other)->Some_0;
        assert(after[i] == entries[i]);
        assert forall|j: int| 0 <= j < i implies after[j].0 != other by {
            assert(after[j] == entries[j]);
        }
        lemma_key_index_first(after, other, i);
    } else {
        assert forall|i: int| 0 <= i < after.len() implies after[i].0 != other by {
            if i < entries.len() {
                assert(after[i] == entries[i]);
            }
        }
    }
}

} // verus!
