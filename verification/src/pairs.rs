//! Lists of key and value pairs read as maps: the last pair naming a key wins.

use vstd::prelude::*;

verus! {

/// The position of the last pair of `s` whose key is `k`, or -1 where there is none.
pub open spec fn last_index_of_key<K, X>(s: Seq<(K, X)>, k: K) -> int
    decreases s.len(),
{
    if s.len() == 0 {
        -1
    } else if s.last().0 == k {
        s.len() - 1
    } else {
        last_index_of_key(s.drop_last(), k)
    }
}

/// What a list of pairs maps the key `k` to: the value of the last pair naming it.
pub open spec fn lookup<K, X>(s: Seq<(K, X)>, k: K) -> Option<X> {
    let i = last_index_of_key(s, k);
    if i < 0 {
        None
    } else {
        Some(s[i].1)
    }
}

/// No key occurs twice in the list of pairs.
pub open spec fn distinct_keys<K, X>(s: Seq<(K, X)>) -> bool {
    forall|i: int, j: int| 0 <= i < j < s.len() ==> s[i].0 != s[j].0
}

/// The last pair naming a key names it, and no later pair does.
pub proof fn lemma_last_index_of_key<K, X>(s: Seq<(K, X)>, k: K)
    ensures
        -1 <= last_index_of_key(s, k) < s.len(),
        last_index_of_key(s, k) >= 0 ==> s[last_index_of_key(s, k)].0 == k,
        forall|j: int| last_index_of_key(s, k) < j < s.len() ==> #[trigger] s[j].0 != k,
    decreases s.len(),
{
    if s.len() > 0 {
        let t = s.drop_last();
        lemma_last_index_of_key(t, k);
        if s.last().0 != k {
            assert forall|j: int| last_index_of_key(s, k) < j < s.len() implies #[trigger] s[j].0 != k by {
                if j < s.len() - 1 {
                    assert(s[j] == t[j]);
                }
            }
        }
    }
}

/// Where no key occurs twice, the key of a pair maps to the value of that pair.
pub proof fn lemma_lookup_at<K, X>(s: Seq<(K, X)>, i: int)
    requires
        distinct_keys(s),
        0 <= i < s.len(),
    ensures
        lookup(s, s[i].0) == Some(s[i].1),
{
    lemma_last_index_of_key(s, s[i].0);
    let j = last_index_of_key(s, s[i].0);
    if j < i {
        assert(s[i].0 != s[i].0);
    }
}

/// A key that maps to something is the key of the pair it was taken from.
pub proof fn lemma_lookup_found<K, X>(s: Seq<(K, X)>, k: K) -> (i: int)
    requires
        lookup(s, k) is Some,
    ensures
        0 <= i < s.len(),
        s[i].0 == k,
        lookup(s, k) == Some(s[i].1),
{
    lemma_last_index_of_key(s, k);
    last_index_of_key(s, k)
}

/// A key that no pair names maps to nothing.
pub proof fn lemma_lookup_absent<K, X>(s: Seq<(K, X)>, k: K)
    requires
        forall|i: int| 0 <= i < s.len() ==> #[trigger] s[i].0 != k,
    ensures
        lookup(s, k) is None,
{
    lemma_last_index_of_key(s, k);
    if last_index_of_key(s, k) >= 0 {
        assert(s[last_index_of_key(s, k)].0 != k);
    }
}

/// A pushed pair decides what its key maps to, and leaves the other keys alone.
pub proof fn lemma_lookup_push<K, X>(s: Seq<(K, X)>, x: (K, X), k: K)
    ensures
        lookup(s.push(x), k) == if x.0 == k { Some(x.1) } else { lookup(s, k) },
{
    let t = s.push(x);
    assert(t.drop_last() =~= s);
    assert(t.last() == x);
    lemma_last_index_of_key(s, k);
    if x.0 != k && last_index_of_key(s, k) >= 0 {
        assert(t[last_index_of_key(s, k)] == s[last_index_of_key(s, k)]);
    }
}

/// Setting the pair at a position of a list without repeated keys to one
/// with the same key changes what that key maps to, and nothing else.
pub proof fn lemma_lookup_update<K, X>(s: Seq<(K, X)>, i: int, x: (K, X))
    requires
        distinct_keys(s),
        0 <= i < s.len(),
        s[i].0 == x.0,
    ensures
        distinct_keys(s.update(i, x)),
        forall|k: K| #[trigger] lookup(s.update(i, x), k) == if x.0 == k { Some(x.1) } else { lookup(s, k) },
{
    let t = s.update(i, x);
    assert forall|a: int, b: int| 0 <= a < b < t.len() implies t[a].0 != t[b].0 by {
        assert(t[a].0 == s[a].0 && t[b].0 == s[b].0);
    }
    assert forall|k: K| #[trigger] lookup(t, k) == if x.0 == k { Some(x.1) } else { lookup(s, k) } by {
        if x.0 == k {
            lemma_lookup_at(t, i);
        } else if exists|j: int| 0 <= j < s.len() && s[j].0 == k {
            let j = choose|j: int| 0 <= j < s.len() && s[j].0 == k;
            lemma_lookup_at(s, j);
            lemma_lookup_at(t, j);
        } else {
            lemma_lookup_absent(s, k);
            assert forall|j: int| 0 <= j < t.len() implies #[trigger] t[j].0 != k by {
                if j != i {
                    assert(t[j] == s[j]);
                }
            }
            lemma_lookup_absent(t, k);
        }
    }
}

/// Pushing a pair whose key no pair names keeps the keys distinct.
pub proof fn lemma_distinct_push<K, X>(s: Seq<(K, X)>, x: (K, X))
    requires
        distinct_keys(s),
        forall|i: int| 0 <= i < s.len() ==> #[trigger] s[i].0 != x.0,
    ensures
        distinct_keys(s.push(x)),
{
    let t = s.push(x);
    assert forall|a: int, b: int| 0 <= a < b < t.len() implies t[a].0 != t[b].0 by {
        if b == s.len() {
            assert(t[a] == s[a]);
        } else {
            assert(t[a] == s[a] && t[b] == s[b]);
        }
    }
}

} // verus!
