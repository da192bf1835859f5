//! Finite maps represented as sequences of key/value pairs without repeated keys.
use vstd::prelude::*;

verus! {

/// No key occurs twice in `s`.
pub open spec fn keys_distinct<K, V>(s: Seq<(K, V)>) -> bool {
    forall|i: int, j: int|
        0 <= i < s.len() && 0 <= j < s.len() && #[trigger] s[i].0 == #[trigger] s[j].0 ==> i == j
}

/// `k` is the key of some pair of `s`.
pub open spec fn has_key<K, V>(s: Seq<(K, V)>, k: K) -> bool {
    exists|i: int| 0 <= i < s.len() && #[trigger] s[i].0 == k
}

/// The map that sends each key of `s` to the value paired with it.
pub open spec fn assoc_map<K, V>(s: Seq<(K, V)>) -> Map<K, V> {
    Map::new(
        |k: K| has_key(s, k),
        |k: K| s[choose|i: int| 0 <= i < s.len() && #[trigger] s[i].0 == k].1,
    )
}

pub proof fn lemma_assoc_at<K, V>(s: Seq<(K, V)>, i: int)
    requires
        keys_distinct(s),
        0 <= i < s.len(),
    ensures
        assoc_map(s).contains_key(s[i].0),
        assoc_map(s)[s[i].0] == s[i].1,
{
    assert(has_key(s, s[i].0));
    let j = choose|j: int| 0 <= j < s.len() && #[trigger] s[j].0 == s[i].0;
    assert(s[j].0 == s[i].0);
}

pub proof fn lemma_assoc_absent<K, V>(s: Seq<(K, V)>, k: K)
    requires
        forall|i: int| 0 <= i < s.len() ==> #[trigger] s[i].0 != k,
    ensures
        !assoc_map(s).contains_key(k),
{
}

pub proof fn lemma_assoc_push<K, V>(s: Seq<(K, V)>, k: K, v: V)
    requires
        keys_distinct(s),
        !assoc_map(s).contains_key(k),
    ensures
        keys_distinct(s.push((k, v))),
        assoc_map(s.push((k, v))) == assoc_map(s).insert(k, v),
{
    let t = s.push((k, v));
    assert forall|i: int, j: int|
        0 <= i < t.len() && 0 <= j < t.len() && #[trigger] t[i].0 == #[trigger] t[j].0 implies i
        == j by {
        if i < s.len() && j < s.len() {
            assert(s[i].0 == s[j].0);
        } else if i < s.len() {
            assert(has_key(s, s[i].0));
        } else if j < s.len() {
            assert(has_key(s, s[j].0));
        }
    }
    let m = assoc_map(t);
    let m2 = assoc_map(s).insert(k, v);
    assert forall|x: K| m.contains_key(x) <==> m2.contains_key(x) by {
        if m.contains_key(x) {
            let i = choose|i: int| 0 <= i < t.len() && #[trigger] t[i].0 == x;
            if i < s.len() {
                assert(s[i].0 == x);
                assert(has_key(s, x));
            }
        }
        if m2.contains_key(x) {
            if x == k {
                assert(t[s.len() as int].0 == x);
            } else {
                let i = choose|i: int| 0 <= i < s.len() && #[trigger] s[i].0 == x;
                assert(t[i].0 == x);
            }
            assert(has_key(t, x));
        }
    }
    assert forall|x: K| #[trigger] m.contains_key(x) implies m[x] == m2[x] by {
        let i = choose|i: int| 0 <= i < t.len() && #[trigger] t[i].0 == x;
        lemma_assoc_at(t, i);
        if i < s.len() {
            assert(s[i] == t[i]);
            lemma_assoc_at(s, i);
        }
    }
    assert(m =~= m2);
}

pub proof fn lemma_assoc_set<K, V>(s: Seq<(K, V)>, i: int, v: V)
    requires
        keys_distinct(s),
        0 <= i < s.len(),
    ensures
        keys_distinct(s.update(i, (s[i].0, v))),
        assoc_map(s.update(i, (s[i].0, v))) == assoc_map(s).insert(s[i].0, v),
{
    let t = s.update(i, (s[i].0, v));
    assert forall|a: int, b: int|
        0 <= a < t.len() && 0 <= b < t.len() && #[trigger] t[a].0 == #[trigger] t[b].0 implies a
        == b by {
        assert(s[a].0 == t[a].0);
        assert(s[b].0 == t[b].0);
    }
    let m = assoc_map(t);
    let m2 = assoc_map(s).insert(s[i].0, v);
    assert forall|x: K| m.contains_key(x) <==> m2.contains_key(x) by {
        if m.contains_key(x) {
            let a = choose|a: int| 0 <= a < t.len() && #[trigger] t[a].0 == x;
            assert(s[a].0 == x);
        }
        if m2.contains_key(x) {
            if x == s[i].0 {
                assert(t[i].0 == x);
            } else {
                let a = choose|a: int| 0 <= a < s.len() && #[trigger] s[a].0 == x;
                assert(t[a].0 == x);
            }
            assert(has_key(t, x));
        }
    }
    assert forall|x: K| #[trigger] m.contains_key(x) implies m[x] == m2[x] by {
        let a = choose|a: int| 0 <= a < t.len() && #[trigger] t[a].0 == x;
        lemma_assoc_at(t, a);
        if a != i {
            lemma_assoc_at(s, a);
        }
    }
    assert(m =~= m2);
}

/// The domain of the map of `s` is the set of its keys; it is finite and, keys being
/// distinct, has as many elements as `s`.
pub proof fn lemma_assoc_dom<K, V>(s: Seq<(K, V)>)
    requires
        keys_distinct(s),
    ensures
        assoc_map(s).dom() == s.map_values(|e: (K, V)| e.0).to_set(),
        assoc_map(s).dom().finite(),
        assoc_map(s).dom().len() == s.len(),
    decreases s.len(),
{
    let ks = s.map_values(|e: (K, V)| e.0);
    assert forall|x: K| assoc_map(s).dom().contains(x) <==> ks.to_set().contains(x) by {
        if assoc_map(s).dom().contains(x) {
            let i = choose|i: int| 0 <= i < s.len() && #[trigger] s[i].0 == x;
            assert(ks[i] == x);
        }
        if ks.to_set().contains(x) {
            let i = choose|i: int| 0 <= i < ks.len() && ks[i] == x;
            assert(s[i].0 == x);
        }
    }
    assert(assoc_map(s).dom() =~= ks.to_set());
    assert forall|i: int, j: int| 0 <= i < ks.len() && 0 <= j < ks.len() && i != j implies ks[i]
        != ks[j] by {
        if ks[i] == ks[j] {
            assert(s[i].0 == s[j].0);
        }
    }
    assert(ks.no_duplicates());
    ks.unique_seq_to_set();
    vstd::seq_lib::seq_to_set_is_finite(ks);
}

/// The union of two maps, where a key of both maps gets its two values combined by `f`.
pub open spec fn merge_with<K, V>(a: Map<K, V>, b: Map<K, V>, f: spec_fn(V, V) -> V) -> Map<K, V> {
    Map::new(
        |k: K| a.contains_key(k) || b.contains_key(k),
        |k: K|
            if a.contains_key(k) && b.contains_key(k) {
                f(a[k], b[k])
            } else if a.contains_key(k) {
                a[k]
            } else {
                b[k]
            },
    )
}

/// Merging one more entry of the second operand.
pub proof fn lemma_merge_with_insert<K, V>(
    a: Map<K, V>,
    b: Map<K, V>,
    f: spec_fn(V, V) -> V,
    k: K,
    v: V,
)
    requires
        !b.contains_key(k),
    ensures
        merge_with(a, b.insert(k, v), f) == merge_with(a, b, f).insert(
            k,
            if a.contains_key(k) {
                f(a[k], v)
            } else {
                v
            },
        ),
{
    assert(merge_with(a, b.insert(k, v), f) =~= merge_with(a, b, f).insert(
        k,
        if a.contains_key(k) {
            f(a[k], v)
        } else {
            v
        },
    ));
}

/// Merging with the empty map.
pub proof fn lemma_merge_with_empty<K, V>(a: Map<K, V>, f: spec_fn(V, V) -> V)
    ensures
        merge_with(a, Map::empty(), f) == a,
        merge_with(Map::empty(), a, f) == a,
{
    assert(merge_with(a, Map::empty(), f) =~= a);
    assert(merge_with(Map::empty(), a, f) =~= a);
}

/// The map of the first `i + 1` pairs is that of the first `i` with one more entry.
pub proof fn lemma_assoc_take_step<K, V>(s: Seq<(K, V)>, i: int)
    requires
        keys_distinct(s),
        0 <= i < s.len(),
    ensures
        keys_distinct(s.take(i)),
        !assoc_map(s.take(i)).contains_key(s[i].0),
        assoc_map(s.take(i + 1)) == assoc_map(s.take(i)).insert(s[i].0, s[i].1),
{
    let t = s.take(i);
    assert forall|a: int, b: int|
        0 <= a < t.len() && 0 <= b < t.len() && #[trigger] t[a].0 == #[trigger] t[b].0 implies a
        == b by {
        assert(s[a].0 == s[b].0);
    }
    assert forall|j: int| 0 <= j < t.len() implies #[trigger] t[j].0 != s[i].0 by {
        assert(s[j].0 == t[j].0);
    }
    lemma_assoc_absent(t, s[i].0);
    lemma_assoc_push(t, s[i].0, s[i].1);
    assert(s.take(i + 1) =~= t.push(s[i]));
}

/// Two pair sequences without repeated keys give the same map when each pair of the first
/// is an entry of the second's map and each key of the second is a key of the first's.
pub proof fn lemma_assoc_same<K, V>(s: Seq<(K, V)>, t: Seq<(K, V)>)
    requires
        keys_distinct(s),
        keys_distinct(t),
        forall|i: int|
            0 <= i < s.len() ==> assoc_map(t).contains_key(#[trigger] s[i].0) && assoc_map(t)[s[i].0]
                == s[i].1,
        forall|j: int| 0 <= j < t.len() ==> assoc_map(s).contains_key(#[trigger] t[j].0),
    ensures
        assoc_map(s) == assoc_map(t),
{
    assert forall|k: K| #[trigger] assoc_map(t).contains_key(k) implies assoc_map(s).contains_key(k) by {
        let j = choose|j: int| 0 <= j < t.len() && #[trigger] t[j].0 == k;
    }
    assert forall|k: K| #[trigger] assoc_map(s).contains_key(k) implies assoc_map(t).contains_key(k)
        && assoc_map(s)[k] == assoc_map(t)[k] by {
        let i = choose|i: int| 0 <= i < s.len() && #[trigger] s[i].0 == k;
        lemma_assoc_at(s, i);
    }
    assert(assoc_map(s) =~= assoc_map(t));
}

/// The first `i + 1` pairs repeat no key when the first `i` repeat none and none of them has
/// the key of pair `i`.
pub proof fn lemma_keys_distinct_step<K, V>(s: Seq<(K, V)>, i: int)
    requires
        0 <= i < s.len(),
        keys_distinct(s.take(i)),
        forall|x: int| 0 <= x < i ==> #[trigger] s[x].0 != s[i].0,
    ensures
        keys_distinct(s.take(i + 1)),
{
    let t = s.take(i + 1);
    assert forall|a: int, b: int|
        0 <= a < t.len() && 0 <= b < t.len() && #[trigger] t[a].0 == #[trigger] t[b].0 implies a
        == b by {
        if a < i && b < i {
            assert(s.take(i)[a].0 == s.take(i)[b].0);
        }
    }
}

/// Pair sequences with the same keys in the same order: one repeats no key when the other
/// repeats none, and their maps have the same keys.
pub proof fn lemma_same_keys<K, V, W>(s: Seq<(K, V)>, t: Seq<(K, W)>)
    requires
        s.len() == t.len(),
        forall|i: int| 0 <= i < s.len() ==> #[trigger] s[i].0 == t[i].0,
    ensures
        keys_distinct(s) ==> keys_distinct(t),
        assoc_map(s).dom() == assoc_map(t).dom(),
{
    if keys_distinct(s) {
        assert forall|a: int, b: int|
            0 <= a < t.len() && 0 <= b < t.len() && #[trigger] t[a].0 == #[trigger] t[b].0 implies a
            == b by {
            assert(s[a].0 == s[b].0);
        }
    }
    assert forall|k: K| assoc_map(s).dom().contains(k) <==> assoc_map(t).dom().contains(k) by {
        if has_key(s, k) {
            let i = choose|i: int| 0 <= i < s.len() && #[trigger] s[i].0 == k;
            assert(t[i].0 == k);
        }
        if has_key(t, k) {
            let i = choose|i: int| 0 <= i < t.len() && #[trigger] t[i].0 == k;
            assert(s[i].0 == k);
        }
    }
    assert(assoc_map(s).dom() =~= assoc_map(t).dom());
}

} // verus!
