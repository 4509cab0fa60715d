//! Sorted key-value entry sequences and their map abstraction.
//!
//! Every storage backend is modelled as a sequence of `(key, value)` pairs in
//! strictly ascending key order; `entries_map` is the map it represents. The
//! lemmas here let the backends state their contracts over plain `Map` values.

use vstd::prelude::*;

use crate::keys::lemma_lex_lt_neq;
use crate::keys::lex_lt;

verus! {

/// The keys of `s` are in strictly ascending lexicographic order.
pub open spec fn entries_sorted<V>(s: Seq<(Seq<u8>, V)>) -> bool {
    forall|i: int, j: int|
        0 <= i < j < s.len() ==> lex_lt(#[trigger] s[i].0, #[trigger] s[j].0)
}

/// The map represented by an entry sequence (later entries win, which is moot
/// once the keys are distinct).
pub open spec fn entries_map<V>(s: Seq<(Seq<u8>, V)>) -> Map<Seq<u8>, V>
    decreases s.len(),
{
    if s.len() == 0 {
        Map::empty()
    } else {
        entries_map(s.drop_last()).insert(s.last().0, s.last().1)
    }
}

/// Some entry of `s` carries the key `k`.
pub open spec fn has_key<V>(s: Seq<(Seq<u8>, V)>, k: Seq<u8>) -> bool {
    exists|i: int| 0 <= i < s.len() && (#[trigger] s[i]).0 == k
}

/// What `entries_map` holds of a sorted entry sequence: its domain is the set
/// of keys, each entry's key maps to that entry's value, and its size is the
/// number of entries.
pub proof fn lemma_entries_map_characterization<V>(s: Seq<(Seq<u8>, V)>)
    requires
        entries_sorted(s),
    ensures
        forall|k: Seq<u8>| #[trigger] entries_map(s).contains_key(k) <==> has_key(s, k),
        forall|i: int|
            0 <= i < s.len() ==> entries_map(s).contains_key(#[trigger] s[i].0)
                && entries_map(s)[s[i].0] == s[i].1,
        entries_map(s).dom().finite(),
        entries_map(s).len() == s.len(),
    decreases s.len(),
{
    if s.len() > 0 {
        let t = s.drop_last();
        let lastk = s.last().0;
        assert(entries_sorted(t)) by {
            assert forall|i: int, j: int| 0 <= i < j < t.len() implies lex_lt(t[i].0, t[j].0) by {
                assert(t[i] == s[i] && t[j] == s[j]);
            }
        }
        lemma_entries_map_characterization(t);
        assert(!has_key(t, lastk)) by {
            if has_key(t, lastk) {
                let i = choose|i: int| 0 <= i < t.len() && t[i].0 == lastk;
                assert(t[i] == s[i]);
                assert(lex_lt(s[i].0, s[s.len() - 1].0));
                lemma_lex_lt_neq(s[i].0, lastk);
            }
        }
        assert forall|k: Seq<u8>| entries_map(s).contains_key(k) implies has_key(s, k) by {
            if k == lastk {
                assert(s[s.len() - 1].0 == k);
            } else {
                let i = choose|i: int| 0 <= i < t.len() && (t[i]).0 == k;
                assert(s[i] == t[i]);
            }
        }
        assert forall|k: Seq<u8>| has_key(s, k) implies entries_map(s).contains_key(k) by {
            let i = choose|i: int| 0 <= i < s.len() && (s[i]).0 == k;
            if i < s.len() - 1 {
                assert(t[i] == s[i]);
                assert(has_key(t, k));
            }
        }
        assert forall|i: int|
            0 <= i < s.len() implies entries_map(s).contains_key(s[i].0)
                && entries_map(s)[s[i].0] == s[i].1 by {
            if i < s.len() - 1 {
                assert(t[i] == s[i]);
                assert(lex_lt(s[i].0, s[s.len() - 1].0));
                lemma_lex_lt_neq(s[i].0, lastk);
            }
        }
        assert(entries_map(s).len() == s.len());
    }
}

/// Concatenation of entry sequences corresponds to right-biased map union.
pub proof fn lemma_entries_map_concat<V>(s1: Seq<(Seq<u8>, V)>, s2: Seq<(Seq<u8>, V)>)
    ensures
        entries_map(s1 + s2) == entries_map(s1).union_prefer_right(entries_map(s2)),
    decreases s2.len(),
{
    if s2.len() == 0 {
        assert(s1 + s2 =~= s1);
        assert(entries_map(s1).union_prefer_right(entries_map(s2)) =~= entries_map(s1));
    } else {
        let t2 = s2.drop_last();
        lemma_entries_map_concat(s1, t2);
        assert((s1 + s2).drop_last() =~= s1 + t2);
        assert((s1 + s2).last() == s2.last());
        assert(entries_map(s1).union_prefer_right(entries_map(t2).insert(s2.last().0, s2.last().1))
            =~= entries_map(s1).union_prefer_right(entries_map(t2)).insert(s2.last().0, s2.last().1));
    }
}

/// A key bracketed between position `i - 1` and position `i` of a sorted
/// entry sequence occurs nowhere in it.
pub proof fn lemma_sorted_key_absent<V>(s: Seq<(Seq<u8>, V)>, key: Seq<u8>, i: int)
    requires
        entries_sorted(s),
        0 <= i <= s.len(),
        forall|j: int| 0 <= j < i ==> lex_lt(#[trigger] s[j].0, key),
        i == s.len() || lex_lt(key, s[i].0),
    ensures
        !has_key(s, key),
{
    if has_key(s, key) {
        let j = choose|j: int| 0 <= j < s.len() && (s[j]).0 == key;
        if j < i {
            lemma_lex_lt_neq(s[j].0, key);
        } else {
            if j > i {
                crate::keys::lemma_lex_lt_transitive(key, s[i].0, s[j].0);
            }
            lemma_lex_lt_neq(key, s[j].0);
        }
    }
}

/// Inserting a fresh key at its bracketed position keeps the sequence sorted
/// and inserts the pair into the represented map.
pub proof fn lemma_entries_map_insert<V>(s: Seq<(Seq<u8>, V)>, i: int, key: Seq<u8>, value: V)
    requires
        entries_sorted(s),
        0 <= i <= s.len(),
        forall|j: int| 0 <= j < i ==> lex_lt(#[trigger] s[j].0, key),
        i == s.len() || lex_lt(key, s[i].0),
    ensures
        entries_sorted(s.insert(i, (key, value))),
        entries_map(s.insert(i, (key, value))) == entries_map(s).insert(key, value),
{
    let t = s.insert(i, (key, value));
    s.insert_ensures(i, (key, value));
    assert forall|a: int, b: int| 0 <= a < b < t.len() implies lex_lt(t[a].0, t[b].0) by {
        if b < i {
            assert(t[a] == s[a] && t[b] == s[b]);
        } else if b == i {
            assert(t[a] == s[a]);
        } else {
            assert(t[b] == s[b - 1]);
            if a < i {
                assert(t[a] == s[a]);
                if a < b - 1 {
                } else {
                    assert(a == b - 1 && a == i);
                    assert(false);
                }
            } else if a == i {
                if b - 1 > i {
                    crate::keys::lemma_lex_lt_transitive(key, s[i].0, s[b - 1].0);
                }
            } else {
                assert(t[a] == s[a - 1]);
            }
        }
    }
    lemma_sorted_key_absent(s, key, i);
    lemma_entries_map_characterization(s);
    lemma_entries_map_characterization(t);
    assert forall|x: Seq<u8>| #[trigger] entries_map(t).contains_key(x)
        implies entries_map(s).insert(key, value).contains_key(x) by {
        let j = choose|j: int| 0 <= j < t.len() && (t[j]).0 == x;
        if j < i {
            assert(t[j] == s[j]);
        } else if j > i {
            assert(t[j] == s[j - 1]);
        }
    }
    assert forall|x: Seq<u8>| #[trigger] entries_map(s).insert(key, value).contains_key(x)
        implies entries_map(t).contains_key(x) by {
        if x == key {
            assert(t[i].0 == x);
        } else {
            let j = choose|j: int| 0 <= j < s.len() && (s[j]).0 == x;
            if j < i {
                assert(t[j] == s[j]);
            } else {
                assert(t[j + 1] == s[j]);
            }
        }
    }
    assert forall|x: Seq<u8>| #[trigger] entries_map(t).contains_key(x)
        implies entries_map(t)[x] == entries_map(s).insert(key, value)[x] by {
        let j = choose|j: int| 0 <= j < t.len() && (t[j]).0 == x;
        assert(entries_map(t)[x] == t[j].1);
        if x == key {
            if j != i {
                lemma_entries_distinct(t, j, i);
            }
            assert(j == i);
        } else {
            assert(j != i);
            if j < i {
                assert(t[j] == s[j]);
                assert(entries_map(s)[x] == s[j].1);
            } else {
                assert(t[j] == s[j - 1]);
                assert(entries_map(s)[x] == s[j - 1].1);
            }
        }
    }
    assert(entries_map(t) =~= entries_map(s).insert(key, value));
}

/// Removing the entry at position `i` keeps the sequence sorted and removes
/// that entry's key from the represented map.
pub proof fn lemma_entries_map_remove<V>(s: Seq<(Seq<u8>, V)>, i: int)
    requires
        entries_sorted(s),
        0 <= i < s.len(),
    ensures
        entries_sorted(s.remove(i)),
        entries_map(s.remove(i)) == entries_map(s).remove(s[i].0),
{
    let key = s[i].0;
    let t = s.remove(i);
    s.remove_ensures(i);
    assert forall|a: int, b: int| 0 <= a < b < t.len() implies lex_lt(t[a].0, t[b].0) by {
        let sa: int = if a < i { a } else { a + 1 };
        let sb: int = if b < i { b } else { b + 1 };
        assert(t[a] == s[sa] && t[b] == s[sb]);
        assert(lex_lt(s[sa].0, s[sb].0));
    }
    lemma_entries_map_characterization(s);
    lemma_entries_map_characterization(t);
    assert forall|x: Seq<u8>| #[trigger] entries_map(t).contains_key(x)
        implies entries_map(s).remove(key).contains_key(x) by {
        let j = choose|j: int| 0 <= j < t.len() && (t[j]).0 == x;
        let sj: int = if j < i { j } else { j + 1 };
        assert(t[j] == s[sj]);
        lemma_entries_distinct(s, sj, i);
    }
    assert forall|x: Seq<u8>| #[trigger] entries_map(s).remove(key).contains_key(x)
        implies entries_map(t).contains_key(x) by {
        let j = choose|j: int| 0 <= j < s.len() && (s[j]).0 == x;
        lemma_entries_distinct(s, j, i);
        if j < i {
            assert(t[j] == s[j]);
        } else {
            assert(t[j - 1] == s[j]);
        }
    }
    assert forall|x: Seq<u8>| #[trigger] entries_map(t).contains_key(x)
        implies entries_map(t)[x] == entries_map(s).remove(key)[x] by {
        let j = choose|j: int| 0 <= j < t.len() && (t[j]).0 == x;
        let sj: int = if j < i { j } else { j + 1 };
        assert(t[j] == s[sj]);
        assert(entries_map(t)[x] == t[j].1);
        assert(entries_map(s)[x] == s[sj].1);
        lemma_entries_distinct(s, sj, i);
    }
    assert(entries_map(t) =~= entries_map(s).remove(key));
}

/// Appending an entry whose key exceeds every present key keeps the sequence
/// sorted.
pub proof fn lemma_sorted_push<V>(s: Seq<(Seq<u8>, V)>, key: Seq<u8>, value: V)
    requires
        entries_sorted(s),
        forall|j: int| 0 <= j < s.len() ==> lex_lt(#[trigger] s[j].0, key),
    ensures
        entries_sorted(s.push((key, value))),
{
    let t = s.push((key, value));
    assert forall|a: int, b: int| 0 <= a < b < t.len() implies lex_lt(t[a].0, t[b].0) by {
        assert(t[a] == s[a]);
        if b < s.len() {
            assert(t[b] == s[b]);
        }
    }
}

/// In a sorted entry sequence every key is distinct from every other.
pub proof fn lemma_entries_distinct<V>(s: Seq<(Seq<u8>, V)>, i: int, j: int)
    requires
        entries_sorted(s),
        0 <= i < s.len(),
        0 <= j < s.len(),
        i != j,
    ensures
        s[i].0 != s[j].0,
{
    if i < j {
        lemma_lex_lt_neq(s[i].0, s[j].0);
    } else {
        lemma_lex_lt_neq(s[j].0, s[i].0);
    }
}

} // verus!
