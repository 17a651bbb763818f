//! Sequences of key and value pairs read as finite maps.

use vstd::prelude::*;

verus! {

/// Some pair of `s` has the key `k`.
pub open spec fn has_key<K, V>(s: Seq<(K, V)>, k: K) -> bool {
    exists|i: int| 0 <= i < s.len() && (#[trigger] s[i]).0 == k
}

/// No key occurs twice in `s`.
pub open spec fn distinct_keys<K, V>(s: Seq<(K, V)>) -> bool {
    forall|i: int, j: int| 0 <= i < j < s.len() ==> (#[trigger] s[i]).0 != (#[trigger] s[j]).0
}

/// A place at which `k` occurs in `s`, if it occurs.
pub open spec fn position<K, V>(s: Seq<(K, V)>, k: K) -> int {
    choose|i: int| 0 <= i < s.len() && (#[trigger] s[i]).0 == k
}

/// The map that sends each key of `s` to the value paired with it.
#[verifier::opaque]
pub open spec fn to_map<K, V>(s: Seq<(K, V)>) -> Map<K, V> {
    Map::new(|k: K| has_key(s, k), |k: K| s[position(s, k)].1)
}

/// The keys of `s`, in order.
pub open spec fn keys_of<K, V>(s: Seq<(K, V)>) -> Seq<K> {
    Seq::new(s.len(), |i: int| s[i].0)
}

/// The map has exactly the keys of the sequence.
pub proof fn lemma_to_map_has<K, V>(s: Seq<(K, V)>, k: K)
    ensures
        to_map(s).contains_key(k) <==> has_key(s, k),
{
    reveal(to_map);
}

/// With distinct keys, the map holds at each key the value beside it.
pub proof fn lemma_to_map_at<K, V>(s: Seq<(K, V)>, i: int)
    requires
        distinct_keys(s),
        0 <= i < s.len(),
    ensures
        to_map(s).contains_key(s[i].0),
        to_map(s)[s[i].0] == s[i].1,
        position(s, s[i].0) == i,
{
    reveal(to_map);
    let k = s[i].0;
    assert(has_key(s, k));
    let p = position(s, k);
    assert(0 <= p < s.len() && s[p].0 == k);
    if p != i {
        if p < i {
            assert(s[p].0 != s[i].0);
        } else {
            assert(s[i].0 != s[p].0);
        }
    }
}

/// The map of the empty sequence is empty.
pub proof fn lemma_to_map_empty<K, V>()
    ensures
        to_map(Seq::<(K, V)>::empty()) == Map::<K, V>::empty(),
        distinct_keys(Seq::<(K, V)>::empty()),
{
    reveal(to_map);
    assert(to_map(Seq::<(K, V)>::empty()) =~= Map::<K, V>::empty());
}

/// Appending a pair with a new key inserts it into the map.
pub proof fn lemma_to_map_push<K, V>(s: Seq<(K, V)>, k: K, v: V)
    requires
        distinct_keys(s),
        !has_key(s, k),
    ensures
        distinct_keys(s.push((k, v))),
        to_map(s.push((k, v))) == to_map(s).insert(k, v),
{
    reveal(to_map);
    let t = s.push((k, v));
    assert forall|i: int, j: int| 0 <= i < j < t.len() implies (#[trigger] t[i]).0 != (
    #[trigger] t[j]).0 by {
        if j < s.len() {
            assert(s[i].0 != s[j].0);
        } else {
            assert(t[i] == s[i]);
        }
    }
    assert forall|q: K| to_map(t).contains_key(q) <==> to_map(s).insert(k, v).contains_key(
        q,
    ) by {
        if has_key(t, q) {
            let i = choose|i: int| 0 <= i < t.len() && (#[trigger] t[i]).0 == q;
            if i < s.len() {
                assert(s[i].0 == q);
            }
        }
        if has_key(s, q) {
            let i = choose|i: int| 0 <= i < s.len() && (#[trigger] s[i]).0 == q;
            assert(t[i].0 == q);
        }
        if q == k {
            assert(t[s.len() as int].0 == q);
        }
    }
    assert forall|q: K| to_map(t).contains_key(q) implies to_map(t)[q] == to_map(s).insert(
        k,
        v,
    )[q] by {
        let i = choose|i: int| 0 <= i < t.len() && (#[trigger] t[i]).0 == q;
        lemma_to_map_at(t, i);
        if i < s.len() {
            assert(s[i] == t[i]);
            lemma_to_map_at(s, i);
        }
    }
    assert(to_map(t) =~= to_map(s).insert(k, v));
}

/// Replacing the value at one place replaces it in the map.
pub proof fn lemma_to_map_update<K, V>(s: Seq<(K, V)>, i: int, v: V)
    requires
        distinct_keys(s),
        0 <= i < s.len(),
    ensures
        distinct_keys(s.update(i, (s[i].0, v))),
        to_map(s.update(i, (s[i].0, v))) == to_map(s).insert(s[i].0, v),
{
    reveal(to_map);
    let k = s[i].0;
    let t = s.update(i, (k, v));
    assert forall|a: int, b: int| 0 <= a < b < t.len() implies (#[trigger] t[a]).0 != (
    #[trigger] t[b]).0 by {
        assert(t[a].0 == s[a].0);
        assert(t[b].0 == s[b].0);
    }
    assert forall|q: K| to_map(t).contains_key(q) <==> to_map(s).insert(k, v).contains_key(
        q,
    ) by {
        if has_key(t, q) {
            let a = choose|a: int| 0 <= a < t.len() && (#[trigger] t[a]).0 == q;
            assert(s[a].0 == q);
        }
        if has_key(s, q) {
            let a = choose|a: int| 0 <= a < s.len() && (#[trigger] s[a]).0 == q;
            assert(t[a].0 == q);
        }
        if q == k {
            assert(t[i].0 == q);
        }
    }
    assert forall|q: K| to_map(t).contains_key(q) implies to_map(t)[q] == to_map(s).insert(
        k,
        v,
    )[q] by {
        let a = choose|a: int| 0 <= a < t.len() && (#[trigger] t[a]).0 == q;
        lemma_to_map_at(t, a);
        if a != i {
            assert(s[a] == t[a]);
            lemma_to_map_at(s, a);
        }
    }
    assert(to_map(t) =~= to_map(s).insert(k, v));
}

/// Taking the pair at one place out takes its key out of the map.
pub proof fn lemma_to_map_remove<K, V>(s: Seq<(K, V)>, i: int)
    requires
        distinct_keys(s),
        0 <= i < s.len(),
    ensures
        distinct_keys(s.remove(i)),
        to_map(s.remove(i)) == to_map(s).remove(s[i].0),
{
    reveal(to_map);
    let k = s[i].0;
    let t = s.remove(i);
    assert forall|a: int, b: int| 0 <= a < b < t.len() implies (#[trigger] t[a]).0 != (
    #[trigger] t[b]).0 by {
        let a0 = if a < i {
            a
        } else {
            a + 1
        };
        let b0 = if b < i {
            b
        } else {
            b + 1
        };
        assert(t[a] == s[a0]);
        assert(t[b] == s[b0]);
        assert(s[a0].0 != s[b0].0);
    }
    assert forall|q: K| to_map(t).contains_key(q) <==> to_map(s).remove(k).contains_key(q) by {
        if has_key(t, q) {
            let a = choose|a: int| 0 <= a < t.len() && (#[trigger] t[a]).0 == q;
            let a0 = if a < i {
                a
            } else {
                a + 1
            };
            assert(t[a] == s[a0]);
            assert(s[a0].0 == q);
            if a0 < i {
                assert(s[a0].0 != s[i].0);
            } else {
                assert(s[i].0 != s[a0].0);
            }
        }
        if has_key(s, q) && q != k {
            let a = choose|a: int| 0 <= a < s.len() && (#[trigger] s[a]).0 == q;
            let a1 = if a < i {
                a
            } else {
                a - 1
            };
            assert(t[a1] == s[a]);
            assert(t[a1].0 == q);
        }
    }
    assert forall|q: K| to_map(t).contains_key(q) implies to_map(t)[q] == to_map(s).remove(
        k,
    )[q] by {
        let a = choose|a: int| 0 <= a < t.len() && (#[trigger] t[a]).0 == q;
        let a0 = if a < i {
            a
        } else {
            a + 1
        };
        lemma_to_map_at(t, a);
        assert(t[a] == s[a0]);
        lemma_to_map_at(s, a0);
    }
    assert(to_map(t) =~= to_map(s).remove(k));
}

/// With distinct keys, the last pair has a key that none before it has: the
/// map is that of the pairs before it with the last pair inserted.
pub proof fn lemma_to_map_last<K, V>(s: Seq<(K, V)>)
    requires
        distinct_keys(s),
        s.len() > 0,
    ensures
        distinct_keys(s.drop_last()),
        !has_key(s.drop_last(), s.last().0),
        !to_map(s.drop_last()).contains_key(s.last().0),
        to_map(s) == to_map(s.drop_last()).insert(s.last().0, s.last().1),
{
    let head = s.drop_last();
    let last = s.last();
    assert forall|i: int, j: int| 0 <= i < j < head.len() implies (#[trigger] head[i]).0 != (
    #[trigger] head[j]).0 by {
        assert(head[i] == s[i]);
        assert(head[j] == s[j]);
    }
    if has_key(head, last.0) {
        let i = choose|i: int| 0 <= i < head.len() && (#[trigger] head[i]).0 == last.0;
        assert(head[i] == s[i]);
        assert(s[i].0 != s[s.len() - 1].0);
    }
    lemma_to_map_has(head, last.0);
    lemma_to_map_push(head, last.0, last.1);
    assert(head.push(last) =~= s);
}

} // verus!
