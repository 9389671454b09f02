//! Association lists with distinct keys, read as finite maps.
use vstd::prelude::*;

verus! {

/// No key occurs twice.
pub open spec fn keys_distinct<K, V>(s: Seq<(K, V)>) -> bool {
    forall|i: int, j: int| 0 <= i < s.len() && 0 <= j < s.len() && i != j ==> s[i].0 != s[j].0
}

/// Whether `k` is a key of the list.
pub open spec fn has_key<K, V>(s: Seq<(K, V)>, k: K) -> bool {
    exists|i: int| 0 <= i < s.len() && s[i].0 == k
}

/// The map that an association list denotes (a later pair wins over an earlier one).
pub open spec fn seq_map<K, V>(s: Seq<(K, V)>) -> Map<K, V>
    decreases s.len(),
{
    if s.len() == 0 {
        Map::empty()
    } else {
        seq_map(s.drop_last()).insert(s.last().0, s.last().1)
    }
}

/// The keys of a list with distinct keys are the domain of its map, and each
/// pair is an entry of the map.
pub proof fn lemma_seq_map<K, V>(s: Seq<(K, V)>)
    requires
        keys_distinct(s),
    ensures
        forall|k: K| #[trigger] seq_map(s).contains_key(k) <==> has_key(s, k),
        forall|i: int| 0 <= i < s.len() ==> #[trigger] seq_map(s)[s[i].0] == s[i].1,
        seq_map(s).dom().finite(),
    decreases s.len(),
{
    if s.len() > 0 {
        let t = s.drop_last();
        assert(keys_distinct(t)) by {
            assert forall|i: int, j: int|
                0 <= i < t.len() && 0 <= j < t.len() && i != j implies t[i].0 != t[j].0 by {
                assert(t[i] == s[i] && t[j] == s[j]);
            }
        }
        lemma_seq_map(t);
        assert forall|k: K| #[trigger] seq_map(s).contains_key(k) <==> has_key(s, k) by {
            if has_key(s, k) {
                let i = choose|i: int| 0 <= i < s.len() && s[i].0 == k;
                if i < s.len() - 1 {
                    assert(t[i] == s[i]);
                    assert(has_key(t, k));
                }
            }
            if seq_map(t).contains_key(k) {
                let i = choose|i: int| 0 <= i < t.len() && t[i].0 == k;
                assert(s[i] == t[i]);
            }
        }
        assert forall|i: int| 0 <= i < s.len() implies #[trigger] seq_map(s)[s[i].0] == s[i].1 by {
            if i < s.len() - 1 {
                assert(t[i] == s[i]);
                assert(s[i].0 != s.last().0);
            }
        }
    }
}

/// Two lists with distinct keys and the same pairs denote the same map.
pub proof fn lemma_seq_map_same_pairs<K, V>(s: Seq<(K, V)>, t: Seq<(K, V)>)
    requires
        keys_distinct(s),
        keys_distinct(t),
        forall|i: int| 0 <= i < s.len() ==> #[trigger] t.contains(s[i]),
        forall|i: int| 0 <= i < t.len() ==> #[trigger] s.contains(t[i]),
    ensures
        seq_map(s) == seq_map(t),
{
    lemma_seq_map(s);
    lemma_seq_map(t);
    assert forall|k: K| #[trigger] seq_map(s).contains_key(k) <==> seq_map(t).contains_key(k) by {
        if has_key(s, k) {
            let i = choose|i: int| 0 <= i < s.len() && s[i].0 == k;
            assert(t.contains(s[i]));
            let j = choose|j: int| 0 <= j < t.len() && t[j] == s[i];
            assert(t[j].0 == k);
        }
        if has_key(t, k) {
            let i = choose|i: int| 0 <= i < t.len() && t[i].0 == k;
            assert(s.contains(t[i]));
            let j = choose|j: int| 0 <= j < s.len() && s[j] == t[i];
            assert(s[j].0 == k);
        }
    }
    assert forall|k: K| seq_map(s).contains_key(k) implies seq_map(s)[k] == seq_map(t)[k] by {
        let i = choose|i: int| 0 <= i < s.len() && s[i].0 == k;
        assert(t.contains(s[i]));
        let j = choose|j: int| 0 <= j < t.len() && t[j] == s[i];
        assert(seq_map(t)[t[j].0] == t[j].1);
    }
    assert(seq_map(s) =~= seq_map(t));
}

/// Replacing the value at position `i` replaces the value of its key.
pub proof fn lemma_seq_map_update<K, V>(s: Seq<(K, V)>, i: int, v: V)
    requires
        keys_distinct(s),
        0 <= i < s.len(),
    ensures
        keys_distinct(s.update(i, (s[i].0, v))),
        seq_map(s.update(i, (s[i].0, v))) == seq_map(s).insert(s[i].0, v),
{
    let t = s.update(i, (s[i].0, v));
    assert(keys_distinct(t)) by {
        assert forall|a: int, b: int|
            0 <= a < t.len() && 0 <= b < t.len() && a != b implies t[a].0 != t[b].0 by {
            assert(t[a].0 == s[a].0 && t[b].0 == s[b].0);
        }
    }
    lemma_seq_map(s);
    lemma_seq_map(t);
    let m = seq_map(s).insert(s[i].0, v);
    assert forall|k: K| #[trigger] seq_map(t).contains_key(k) <==> m.contains_key(k) by {
        if has_key(t, k) {
            let a = choose|a: int| 0 <= a < t.len() && t[a].0 == k;
            assert(s[a].0 == k);
        }
        if has_key(s, k) {
            let a = choose|a: int| 0 <= a < s.len() && s[a].0 == k;
            assert(t[a].0 == k);
        }
    }
    assert forall|k: K| seq_map(t).contains_key(k) implies seq_map(t)[k] == m[k] by {
        let a = choose|a: int| 0 <= a < t.len() && t[a].0 == k;
        assert(seq_map(t)[t[a].0] == t[a].1);
        if a != i {
            assert(t[a] == s[a]);
        }
    }
    assert(seq_map(t) =~= m);
}

/// Inserting a pair with a new key at any position adds that key.
pub proof fn lemma_seq_map_insert<K, V>(s: Seq<(K, V)>, p: int, x: (K, V))
    requires
        keys_distinct(s),
        0 <= p <= s.len(),
        !has_key(s, x.0),
    ensures
        keys_distinct(s.insert(p, x)),
        seq_map(s.insert(p, x)) == seq_map(s).insert(x.0, x.1),
{
    let t = s.insert(p, x);
    assert(keys_distinct(t)) by {
        assert forall|a: int, b: int|
            0 <= a < t.len() && 0 <= b < t.len() && a != b implies t[a].0 != t[b].0 by {
            if a != p && b != p {
                let a0 = if a < p {
                    a
                } else {
                    a - 1
                };
                let b0 = if b < p {
                    b
                } else {
                    b - 1
                };
                assert(t[a] == s[a0] && t[b] == s[b0]);
            } else if a == p {
                let b0 = if b < p {
                    b
                } else {
                    b - 1
                };
                assert(t[b] == s[b0]);
            } else {
                let a0 = if a < p {
                    a
                } else {
                    a - 1
                };
                assert(t[a] == s[a0]);
            }
        }
    }
    let u = s.push(x);
    assert(keys_distinct(u)) by {
        assert forall|a: int, b: int|
            0 <= a < u.len() && 0 <= b < u.len() && a != b implies u[a].0 != u[b].0 by {
            if a < s.len() && b < s.len() {
                assert(u[a] == s[a] && u[b] == s[b]);
            } else if a < s.len() {
                assert(u[a] == s[a]);
            } else {
                assert(u[b] == s[b]);
            }
        }
    }
    assert forall|i: int| 0 <= i < t.len() implies #[trigger] u.contains(t[i]) by {
        if i == p {
            assert(u[s.len() as int] == x);
        } else if i < p {
            assert(u[i] == t[i]);
        } else {
            assert(u[i - 1] == t[i]);
        }
    }
    assert forall|i: int| 0 <= i < u.len() implies #[trigger] t.contains(u[i]) by {
        if i == s.len() {
            assert(t[p] == x);
        } else if i < p {
            assert(t[i] == u[i]);
        } else {
            assert(t[i + 1] == u[i]);
        }
    }
    lemma_seq_map_same_pairs(t, u);
    assert(u.drop_last() =~= s);
}

/// Removing the pair at position `i` removes its key.
pub proof fn lemma_seq_map_remove<K, V>(s: Seq<(K, V)>, i: int)
    requires
        keys_distinct(s),
        0 <= i < s.len(),
    ensures
        keys_distinct(s.remove(i)),
        seq_map(s.remove(i)) == seq_map(s).remove(s[i].0),
{
    let t = s.remove(i);
    assert(keys_distinct(t)) by {
        assert forall|a: int, b: int|
            0 <= a < t.len() && 0 <= b < t.len() && a != b implies t[a].0 != t[b].0 by {
            let a0 = if a < i { a } else { a + 1 };
            let b0 = if b < i { b } else { b + 1 };
            assert(t[a] == s[a0] && t[b] == s[b0]);
        }
    }
    lemma_seq_map(s);
    lemma_seq_map(t);
    let m = seq_map(s).remove(s[i].0);
    assert forall|k: K| #[trigger] seq_map(t).contains_key(k) <==> m.contains_key(k) by {
        if has_key(t, k) {
            let a = choose|a: int| 0 <= a < t.len() && t[a].0 == k;
            let a0 = if a < i { a } else { a + 1 };
            assert(t[a] == s[a0]);
            assert(has_key(s, k));
        }
        if m.contains_key(k) {
            assert(has_key(s, k));
            let a = choose|a: int| 0 <= a < s.len() && s[a].0 == k;
            assert(a != i);
            let a1 = if a < i { a } else { a - 1 };
            assert(t[a1] == s[a]);
        }
    }
    assert forall|k: K| seq_map(t).contains_key(k) implies seq_map(t)[k] == m[k] by {
        let a = choose|a: int| 0 <= a < t.len() && t[a].0 == k;
        let a0 = if a < i { a } else { a + 1 };
        assert(t[a] == s[a0]);
        assert(seq_map(t)[t[a].0] == t[a].1);
        assert(seq_map(s)[s[a0].0] == s[a0].1);
    }
    assert(seq_map(t) =~= m);
}

} // verus!
