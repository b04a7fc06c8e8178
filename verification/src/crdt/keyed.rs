use vstd::prelude::*;
use crate::crdt::element::{Duplicate, Element};

verus! {

// A finite map kept as a vector of (key, value) entries in which no key occurs
// twice; its meaning is the map from the keys' views to the values' views.

/// No two entries have keys with the same view.
pub open spec fn keys_unique<K: View, V>(s: Seq<(K, V)>) -> bool {
    forall|i: int, j: int|
        0 <= i < s.len() && 0 <= j < s.len() && i != j ==> #[trigger] s[i].0@ != #[trigger] s[j].0@
}

/// Some entry has a key with view `k`.
pub open spec fn has_key<K: View, V>(s: Seq<(K, V)>, k: K::V) -> bool {
    exists|i: int| 0 <= i < s.len() && #[trigger] s[i].0@ == k
}

/// The position of an entry whose key has view `k`.
pub open spec fn key_index<K: View, V>(s: Seq<(K, V)>, k: K::V) -> int {
    choose|i: int| 0 <= i < s.len() && #[trigger] s[i].0@ == k
}

/// The map that the entries stand for.
pub open spec fn entries_view<K: View, V: View>(s: Seq<(K, V)>) -> Map<K::V, V::V> {
    Map::new(|k: K::V| has_key(s, k), |k: K::V| s[key_index(s, k)].1@)
}

/// The entry at position `i` is what the map holds for its key.
pub proof fn lemma_view_at<K: View, V: View>(s: Seq<(K, V)>, i: int)
    requires
        keys_unique(s),
        0 <= i < s.len(),
    ensures
        entries_view(s).contains_key(s[i].0@),
        entries_view(s)[s[i].0@] == s[i].1@,
        key_index(s, s[i].0@) == i,
{
    assert(has_key(s, s[i].0@));
    let j = key_index(s, s[i].0@);
    assert(s[j].0@ == s[i].0@);
}

/// Appending an entry with a fresh key inserts it into the map.
pub proof fn lemma_view_push<K: View, V: View>(s: Seq<(K, V)>, k: K, v: V)
    requires
        keys_unique(s),
        !has_key(s, k@),
    ensures
        keys_unique(s.push((k, v))),
        entries_view(s.push((k, v))) == entries_view(s).insert(k@, v@),
{
    let t = s.push((k, v));
    assert forall|i: int, j: int|
        0 <= i < t.len() && 0 <= j < t.len() && i != j implies #[trigger] t[i].0@ != #[trigger] t[j].0@ by {
        if i < s.len() && j < s.len() {
            assert(t[i] == s[i] && t[j] == s[j]);
        } else if i < s.len() {
            assert(t[i] == s[i]);
        } else {
            assert(t[j] == s[j]);
        }
    }
    assert forall|key: K::V| #[trigger] has_key(t, key) == (has_key(s, key) || key == k@) by {
        if has_key(s, key) {
            let i = choose|i: int| 0 <= i < s.len() && #[trigger] s[i].0@ == key;
            assert(t[i] == s[i]);
        }
        if key == k@ {
            assert(t[s.len() as int].0@ == key);
        }
        if has_key(t, key) && key != k@ {
            let i = choose|i: int| 0 <= i < t.len() && #[trigger] t[i].0@ == key;
            assert(t[i] == s[i]);
        }
    }
    assert forall|key: K::V| #[trigger] entries_view(t).contains_key(key) implies entries_view(t)[key]
        == entries_view(s).insert(k@, v@)[key] by {
        let i = key_index(t, key);
        if key == k@ {
            lemma_view_at(t, s.len() as int);
        } else {
            lemma_view_at(t, i);
            assert(t[i] == s[i]);
            lemma_view_at(s, i);
        }
    }
    assert(entries_view(t) =~= entries_view(s).insert(k@, v@));
}

/// Replacing the value of the entry at position `i` updates the map at its key.
pub proof fn lemma_view_update<K: View, V: View>(s: Seq<(K, V)>, i: int, v: V)
    requires
        keys_unique(s),
        0 <= i < s.len(),
    ensures
        keys_unique(s.update(i, (s[i].0, v))),
        entries_view(s.update(i, (s[i].0, v))) == entries_view(s).insert(s[i].0@, v@),
{
    let t = s.update(i, (s[i].0, v));
    assert forall|a: int, b: int|
        0 <= a < t.len() && 0 <= b < t.len() && a != b implies #[trigger] t[a].0@ != #[trigger] t[b].0@ by {
        assert(t[a].0 == s[a].0 && t[b].0 == s[b].0);
    }
    assert forall|key: K::V| #[trigger] has_key(t, key) == has_key(s, key) by {
        if has_key(s, key) {
            let j = choose|j: int| 0 <= j < s.len() && #[trigger] s[j].0@ == key;
            assert(t[j].0 == s[j].0);
        }
        if has_key(t, key) {
            let j = choose|j: int| 0 <= j < t.len() && #[trigger] t[j].0@ == key;
            assert(t[j].0 == s[j].0);
        }
    }
    assert forall|key: K::V| #[trigger] entries_view(t).contains_key(key) implies entries_view(t)[key]
        == entries_view(s).insert(s[i].0@, v@)[key] by {
        let j = key_index(t, key);
        lemma_view_at(t, j);
        if j != i {
            assert(t[j] == s[j]);
            lemma_view_at(s, j);
        }
    }
    assert(entries_view(t) =~= entries_view(s).insert(s[i].0@, v@));
}

/// The map of an empty vector is empty.
pub proof fn lemma_view_empty<K: View, V: View>(s: Seq<(K, V)>)
    requires
        s.len() == 0,
    ensures
        keys_unique(s),
        entries_view(s) == Map::<K::V, V::V>::empty(),
{
    assert(entries_view(s) =~= Map::<K::V, V::V>::empty());
}

/// The map of the first `i + 1` entries is the map of the first `i` with entry `i` added.
pub proof fn lemma_view_take<K: View, V: View>(s: Seq<(K, V)>, i: int)
    requires
        keys_unique(s),
        0 <= i < s.len(),
    ensures
        keys_unique(s.take(i)),
        !has_key(s.take(i), s[i].0@),
        s.take(i + 1) == s.take(i).push(s[i]),
        entries_view(s.take(i + 1)) == entries_view(s.take(i)).insert(s[i].0@, s[i].1@),
{
    let p = s.take(i);
    assert(s.take(i + 1) =~= p.push(s[i]));
    assert forall|a: int, b: int|
        0 <= a < p.len() && 0 <= b < p.len() && a != b implies #[trigger] p[a].0@ != #[trigger] p[b].0@ by {
        assert(p[a] == s[a] && p[b] == s[b]);
    }
    if has_key(p, s[i].0@) {
        let j = choose|j: int| 0 <= j < p.len() && #[trigger] p[j].0@ == s[i].0@;
        assert(p[j] == s[j]);
    }
    lemma_view_push(p, s[i].0, s[i].1);
}

/// The domain of the map is finite.
pub proof fn lemma_view_finite<K: View, V: View>(s: Seq<(K, V)>)
    ensures
        entries_view(s).dom().finite(),
{
    let keys = s.map_values(|e: (K, V)| e.0@);
    assert forall|k: K::V| #[trigger] entries_view(s).dom().contains(k) implies keys.to_set().contains(k) by {
        let i = choose|i: int| 0 <= i < s.len() && #[trigger] s[i].0@ == k;
        assert(keys[i] == k);
    }
    vstd::set_lib::lemma_len_subset(entries_view(s).dom(), keys.to_set());
}

/// The number of keys is the number of entries.
pub proof fn lemma_view_len<K: View, V: View>(s: Seq<(K, V)>)
    requires
        keys_unique(s),
    ensures
        entries_view(s).dom().len() == s.len(),
{
    let keys = s.map_values(|e: (K, V)| e.0@);
    assert(keys.no_duplicates()) by {
        assert forall|i: int, j: int| 0 <= i < keys.len() && 0 <= j < keys.len() && i != j implies keys[i]
            != keys[j] by {
            assert(s[i].0@ != s[j].0@);
        }
    }
    keys.unique_seq_to_set();
    assert forall|k: K::V| #[trigger] entries_view(s).dom().contains(k) == keys.to_set().contains(k) by {
        if entries_view(s).dom().contains(k) {
            let i = choose|i: int| 0 <= i < s.len() && #[trigger] s[i].0@ == k;
            assert(keys[i] == k);
        }
        if keys.to_set().contains(k) {
            let i = choose|i: int| 0 <= i < keys.len() && keys[i] == k;
            assert(s[i].0@ == k);
        }
    }
    assert(entries_view(s).dom() =~= keys.to_set());
}

/// Two entry sequences that agree position by position on views stand for the same map.
pub proof fn lemma_view_same<K: View, V: View, W: View<V = V::V>>(s: Seq<(K, V)>, t: Seq<(K, W)>)
    requires
        keys_unique(s),
        s.len() == t.len(),
        forall|i: int| 0 <= i < s.len() ==> #[trigger] t[i].0@ == s[i].0@ && t[i].1@ == s[i].1@,
    ensures
        keys_unique(t),
        entries_view(t) == entries_view(s),
{
    assert forall|a: int, b: int|
        0 <= a < t.len() && 0 <= b < t.len() && a != b implies #[trigger] t[a].0@ != #[trigger] t[b].0@ by {
        assert(s[a].0@ != s[b].0@);
    }
    assert forall|k: K::V| #[trigger] has_key(t, k) == has_key(s, k) by {
        if has_key(t, k) {
            let j = choose|j: int| 0 <= j < t.len() && #[trigger] t[j].0@ == k;
            assert(s[j].0@ == k);
        }
        if has_key(s, k) {
            let j = choose|j: int| 0 <= j < s.len() && #[trigger] s[j].0@ == k;
            assert(t[j].0@ == k);
        }
    }
    assert forall|k: K::V| #[trigger] entries_view(t).contains_key(k) implies entries_view(t)[k]
        == entries_view(s)[k] by {
        let j = key_index(t, k);
        lemma_view_at(t, j);
        lemma_view_at(s, j);
    }
    assert(entries_view(t) =~= entries_view(s));
}

/// A copy of the entries, key by key and value by value.
pub fn clone_entries<K: Duplicate, V: Duplicate>(v: &Vec<(K, V)>) -> (r: Vec<(K, V)>)
    ensures
        r@.len() == v@.len(),
        forall|i: int| 0 <= i < v@.len() ==> #[trigger] r@[i].0@ == v@[i].0@ && r@[i].1@ == v@[i].1@,
{
    let n = v.len();
    let mut out: Vec<(K, V)> = Vec::new();
    let mut i: usize = 0;
    while i < n
        invariant
            n == v@.len(),
            i <= n,
            out@.len() == i,
            forall|j: int| 0 <= j < i ==> #[trigger] out@[j].0@ == v@[j].0@ && out@[j].1@ == v@[j].1@,
        decreases n - i,
    {
        let e = &v[i];
        out.push((e.0.duplicate(), e.1.duplicate()));
        i = i + 1;
    }
    out
}

/// The position of the entry whose key has the view of `key`, if there is one.
pub fn find_key<K: Element, V>(entries: &Vec<(K, V)>, key: &K) -> (r: Option<usize>)
    ensures
        match r {
            Some(i) => i < entries@.len() && entries@[i as int].0@ == key@,
            None => !has_key(entries@, key@),
        },
{
    let n = entries.len();
    let mut i: usize = 0;
    while i < n
        invariant
            n == entries@.len(),
            i <= n,
            forall|j: int| 0 <= j < i ==> #[trigger] entries@[j].0@ != key@,
        decreases n - i,
    {
        if entries[i].0.same(key) {
            return Some(i);
        }
        i = i + 1;
    }
    None
}

/// Whether no two entries have keys with the same view.
pub fn check_unique<K: Element, V>(v: &Vec<(K, V)>) -> (r: bool)
    ensures
        r == keys_unique(v@),
{
    let n = v.len();
    let mut i: usize = 0;
    while i < n
        invariant
            n == v@.len(),
            i <= n,
            forall|a: int, b: int| 0 <= a < i && 0 <= b < i && a != b ==> #[trigger] v@[a].0@ != #[trigger] v@[b].0@,
        decreases n - i,
    {
        let mut j: usize = 0;
        while j < i
            invariant
                n == v@.len(),
                i < n,
                j <= i,
                forall|b: int| 0 <= b < j ==> #[trigger] v@[b].0@ != v@[i as int].0@,
            decreases i - j,
        {
            if v[j].0.same(&v[i].0) {
                proof {
                    assert(v@[j as int].0@ == v@[i as int].0@);
                }
                return false;
            }
            j = j + 1;
        }
        proof {
            assert forall|a: int, b: int| 0 <= a < i + 1 && 0 <= b < i + 1 && a != b implies #[trigger] v@[a].0@
                != #[trigger] v@[b].0@ by {
                if a == i {
                    assert(v@[b].0@ != v@[i as int].0@);
                } else if b == i {
                    assert(v@[a].0@ != v@[i as int].0@);
                }
            }
        }
        i = i + 1;
    }
    true
}

} // verus!
