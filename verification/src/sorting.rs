//! Sequences sorted by a strict total order, and the uniqueness of such an arrangement.
use vstd::prelude::*;

verus! {

/// `lt` is irreflexive, transitive and relates any two distinct values.
pub open spec fn strict_total<A>(lt: spec_fn(A, A) -> bool) -> bool {
    &&& forall|a: A| !#[trigger] lt(a, a)
    &&& forall|a: A, b: A, c: A| #[trigger] lt(a, b) && #[trigger] lt(b, c) ==> lt(a, c)
    &&& forall|a: A, b: A| a != b ==> #[trigger] lt(a, b) || #[trigger] lt(b, a)
}

/// Every element of `s` comes before every later one.
pub open spec fn strictly_sorted<A>(s: Seq<A>, lt: spec_fn(A, A) -> bool) -> bool {
    forall|i: int, j: int| 0 <= i < j < s.len() ==> lt(#[trigger] s[i], #[trigger] s[j])
}

/// The elements of the finite set `set`, arranged in the order `lt`.
pub open spec fn sorted_of<A>(set: Set<A>, lt: spec_fn(A, A) -> bool) -> Seq<A> {
    choose|s: Seq<A>| strictly_sorted(s, lt) && s.to_set() == set
}

/// Two sequences sorted by the same strict total order and holding the same elements are equal.
pub proof fn lemma_sorted_unique<A>(s1: Seq<A>, s2: Seq<A>, lt: spec_fn(A, A) -> bool)
    requires
        strict_total(lt),
        strictly_sorted(s1, lt),
        strictly_sorted(s2, lt),
        s1.to_set() == s2.to_set(),
    ensures
        s1 == s2,
    decreases s1.len(),
{
    if s1.len() == 0 {
        if s2.len() > 0 {
            assert(s2.to_set().contains(s2[0]));
        }
        assert(s1 =~= s2);
    } else if s2.len() == 0 {
        assert(s1.to_set().contains(s1[0]));
    } else {
        assert(s1.to_set().contains(s1[0]));
        let k = choose|k: int| 0 <= k < s2.len() && s2[k] == s1[0];
        assert(s2.to_set().contains(s2[0]));
        let m = choose|m: int| 0 <= m < s1.len() && s1[m] == s2[0];
        if k > 0 {
            assert(lt(s2[0], s2[k]));
            if m > 0 {
                assert(lt(s1[0], s1[m]));
                assert(lt(s1[0], s1[0]));
            }
        }
        assert(s1[0] == s2[0]);
        let t1 = s1.drop_first();
        let t2 = s2.drop_first();
        assert(strictly_sorted(t1, lt)) by {
            assert forall|i: int, j: int| 0 <= i < j < t1.len() implies lt(#[trigger] t1[i], #[trigger] t1[j]) by {
                assert(t1[i] == s1[i + 1] && t1[j] == s1[j + 1]);
            }
        }
        assert(strictly_sorted(t2, lt)) by {
            assert forall|i: int, j: int| 0 <= i < j < t2.len() implies lt(#[trigger] t2[i], #[trigger] t2[j]) by {
                assert(t2[i] == s2[i + 1] && t2[j] == s2[j + 1]);
            }
        }
        assert(t1.to_set() =~= t2.to_set()) by {
            assert forall|x: A| t1.to_set().contains(x) implies t2.to_set().contains(x) by {
                let i = choose|i: int| 0 <= i < t1.len() && t1[i] == x;
                assert(s1[i + 1] == x);
                assert(lt(s1[0], s1[i + 1]));
                assert(s2.to_set().contains(x));
                let j = choose|j: int| 0 <= j < s2.len() && s2[j] == x;
                if j == 0 {
                    assert(lt(x, x));
                }
                assert(t2[j - 1] == x);
            }
            assert forall|x: A| t2.to_set().contains(x) implies t1.to_set().contains(x) by {
                let i = choose|i: int| 0 <= i < t2.len() && t2[i] == x;
                assert(s2[i + 1] == x);
                assert(lt(s2[0], s2[i + 1]));
                assert(s1.to_set().contains(x));
                let j = choose|j: int| 0 <= j < s1.len() && s1[j] == x;
                if j == 0 {
                    assert(lt(x, x));
                }
                assert(t1[j - 1] == x);
            }
        }
        lemma_sorted_unique(t1, t2, lt);
        assert(s1 =~= s2) by {
            assert forall|i: int| 0 <= i < s1.len() implies s1[i] == s2[i] by {
                if i > 0 {
                    assert(t1[i - 1] == t2[i - 1]);
                }
            }
        }
    }
}

/// A sorted arrangement of a set is the one that `sorted_of` names.
pub proof fn lemma_sorted_of<A>(s: Seq<A>, set: Set<A>, lt: spec_fn(A, A) -> bool)
    requires
        strict_total(lt),
        strictly_sorted(s, lt),
        s.to_set() == set,
    ensures
        sorted_of(set, lt) == s,
{
    let t = sorted_of(set, lt);
    assert(strictly_sorted(t, lt) && t.to_set() == set);
    lemma_sorted_unique(t, s, lt);
}

/// Inserting an element at the position that keeps the order.
pub proof fn lemma_insert_sorted<A>(s: Seq<A>, x: A, p: int, lt: spec_fn(A, A) -> bool)
    requires
        strict_total(lt),
        strictly_sorted(s, lt),
        0 <= p <= s.len(),
        forall|k: int| 0 <= k < p ==> lt(#[trigger] s[k], x),
        p < s.len() ==> lt(x, s[p]),
    ensures
        strictly_sorted(s.insert(p, x), lt),
        s.insert(p, x).to_set() == s.to_set().insert(x),
{
    let t = s.insert(p, x);
    assert forall|i: int, j: int| 0 <= i < j < t.len() implies lt(#[trigger] t[i], #[trigger] t[j]) by {
        if j < p {
            assert(t[i] == s[i] && t[j] == s[j]);
        } else if j == p {
            assert(t[i] == s[i]);
        } else if i < p {
            assert(t[i] == s[i] && t[j] == s[j - 1]);
            assert(lt(s[i], x));
            if j - 1 > p {
                assert(lt(s[p], s[j - 1]));
            }
            assert(lt(x, s[j - 1]));
        } else if i == p {
            assert(t[j] == s[j - 1]);
            if j - 1 > p {
                assert(lt(s[p], s[j - 1]));
            }
        } else {
            assert(t[i] == s[i - 1] && t[j] == s[j - 1]);
        }
    }
    assert forall|y: A| t.to_set().contains(y) <==> s.to_set().insert(x).contains(y) by {
        if t.to_set().contains(y) {
            let i = choose|i: int| 0 <= i < t.len() && t[i] == y;
            if i < p {
                assert(s[i] == y);
            } else if i > p {
                assert(s[i - 1] == y);
            }
        }
        if s.to_set().contains(y) {
            let i = choose|i: int| 0 <= i < s.len() && s[i] == y;
            if i < p {
                assert(t[i] == y);
            } else {
                assert(t[i + 1] == y);
            }
        }
        if y == x {
            assert(t[p] == x);
        }
    }
    assert(t.to_set() =~= s.to_set().insert(x));
}

proof fn lemma_insert_position<A>(s: Seq<A>, x: A, lt: spec_fn(A, A) -> bool) -> (p: int)
    requires
        strict_total(lt),
        strictly_sorted(s, lt),
        !s.contains(x),
    ensures
        0 <= p <= s.len(),
        forall|k: int| 0 <= k < p ==> lt(#[trigger] s[k], x),
        p < s.len() ==> lt(x, s[p]),
    decreases s.len(),
{
    if s.len() == 0 {
        0
    } else {
        let t = s.drop_last();
        assert(strictly_sorted(t, lt)) by {
            assert forall|i: int, j: int| 0 <= i < j < t.len() implies lt(#[trigger] t[i], #[trigger] t[j]) by {
                assert(t[i] == s[i] && t[j] == s[j]);
            }
        }
        assert(!t.contains(x)) by {
            if t.contains(x) {
                let i = choose|i: int| 0 <= i < t.len() && t[i] == x;
                assert(s[i] == x);
            }
        }
        let q = lemma_insert_position(t, x, lt);
        let last = s[s.len() - 1];
        assert(s.contains(last));
        if lt(last, x) {
            assert forall|k: int| 0 <= k < s.len() implies lt(#[trigger] s[k], x) by {
                if k < s.len() - 1 {
                    assert(lt(s[k], last));
                }
            }
            s.len() as int
        } else {
            assert(last != x);
            assert(lt(x, last));
            assert forall|k: int| 0 <= k < q implies lt(#[trigger] s[k], x) by {
                assert(t[k] == s[k]);
            }
            if q < t.len() {
                assert(t[q] == s[q]);
            }
            q
        }
    }
}

/// Every finite set has an arrangement in a strict total order.
pub proof fn lemma_sorted_exists<A>(set: Set<A>, lt: spec_fn(A, A) -> bool)
    requires
        strict_total(lt),
        set.finite(),
    ensures
        strictly_sorted(sorted_of(set, lt), lt),
        sorted_of(set, lt).to_set() == set,
    decreases set.len(),
{
    if set.len() == 0 {
        let e = Seq::<A>::empty();
        assert(e.to_set() =~= set);
        assert(strictly_sorted(e, lt));
    } else {
        let x = set.choose();
        let rest = set.remove(x);
        lemma_sorted_exists(rest, lt);
        let t = sorted_of(rest, lt);
        assert(!t.contains(x)) by {
            if t.contains(x) {
                assert(t.to_set().contains(x));
            }
        }
        let p = lemma_insert_position(t, x, lt);
        lemma_insert_sorted(t, x, p, lt);
        assert(t.insert(p, x).to_set() =~= set);
        assert(strictly_sorted(t.insert(p, x), lt) && t.insert(p, x).to_set() == set);
    }
}

/// `a` comes before `b` in the lexicographic order that `lt` induces on sequences.
pub open spec fn lex_lt<A>(a: Seq<A>, b: Seq<A>, lt: spec_fn(A, A) -> bool) -> bool {
    exists|k: int|
        0 <= k <= a.len() && k <= b.len() && a.take(k) == b.take(k) && ((k == a.len() && k
            < b.len()) || (k < a.len() && k < b.len() && lt(a[k], b[k])))
}

pub proof fn lemma_lex_irreflexive<A>(a: Seq<A>, lt: spec_fn(A, A) -> bool)
    requires
        strict_total(lt),
    ensures
        !lex_lt(a, a, lt),
{
    if lex_lt(a, a, lt) {
        let k = choose|k: int|
            0 <= k <= a.len() && k <= a.len() && a.take(k) == a.take(k) && ((k == a.len() && k
                < a.len()) || (k < a.len() && k < a.len() && lt(a[k], a[k])));
        assert(!lt(a[k], a[k]));
    }
}

pub proof fn lemma_lex_transitive<A>(a: Seq<A>, b: Seq<A>, c: Seq<A>, lt: spec_fn(A, A) -> bool)
    requires
        strict_total(lt),
        lex_lt(a, b, lt),
        lex_lt(b, c, lt),
    ensures
        lex_lt(a, c, lt),
{
    let k1 = choose|k: int|
        0 <= k <= a.len() && k <= b.len() && a.take(k) == b.take(k) && ((k == a.len() && k
            < b.len()) || (k < a.len() && k < b.len() && lt(a[k], b[k])));
    let k2 = choose|k: int|
        0 <= k <= b.len() && k <= c.len() && b.take(k) == c.take(k) && ((k == b.len() && k
            < c.len()) || (k < b.len() && k < c.len() && lt(b[k], c[k])));
    let k = if k1 <= k2 { k1 } else { k2 };
    assert(a.take(k) =~= c.take(k)) by {
        assert forall|i: int| 0 <= i < k implies a.take(k)[i] == c.take(k)[i] by {
            assert(a.take(k1)[i] == b.take(k1)[i]);
            assert(b.take(k2)[i] == c.take(k2)[i]);
        }
    }
    if k1 < k2 {
        assert(b.take(k2)[k1] == c.take(k2)[k1]);
    } else if k2 < k1 {
        assert(a.take(k1)[k2] == b.take(k1)[k2]);
    } else if k1 < a.len() && k1 < c.len() {
        assert(lt(a[k], b[k]) && lt(b[k], c[k]));
    }
}

pub proof fn lemma_lex_cons<A>(a: Seq<A>, b: Seq<A>, lt: spec_fn(A, A) -> bool)
    requires
        a.len() > 0,
        b.len() > 0,
        a[0] == b[0],
        lex_lt(a.drop_first(), b.drop_first(), lt),
    ensures
        lex_lt(a, b, lt),
{
    let a1 = a.drop_first();
    let b1 = b.drop_first();
    let k = choose|k: int|
        0 <= k <= a1.len() && k <= b1.len() && a1.take(k) == b1.take(k) && ((k == a1.len() && k
            < b1.len()) || (k < a1.len() && k < b1.len() && lt(a1[k], b1[k])));
    assert(a.take(k + 1) =~= b.take(k + 1)) by {
        assert forall|i: int| 0 <= i < k + 1 implies #[trigger] a.take(k + 1)[i] == b.take(k + 1)[i] by {
            if i > 0 {
                assert(a1.take(k)[i - 1] == b1.take(k)[i - 1]);
            }
        }
    }
    if k < a1.len() && k < b1.len() {
        assert(a[k + 1] == a1[k] && b[k + 1] == b1[k]);
    }
}

pub proof fn lemma_lex_total<A>(a: Seq<A>, b: Seq<A>, lt: spec_fn(A, A) -> bool)
    requires
        strict_total(lt),
        a != b,
    ensures
        lex_lt(a, b, lt) || lex_lt(b, a, lt),
    decreases a.len(),
{
    if a.len() == 0 {
        assert(a.take(0) =~= b.take(0));
        if b.len() == 0 {
            assert(a =~= b);
        }
    } else if b.len() == 0 {
        assert(a.take(0) =~= b.take(0));
    } else if a[0] != b[0] {
        assert(a.take(0) =~= b.take(0));
        assert(lt(a[0], b[0]) || lt(b[0], a[0]));
    } else {
        if a.drop_first() == b.drop_first() {
            assert(a =~= b.drop_first().insert(0, b[0]));
            assert(b =~= b.drop_first().insert(0, b[0]));
        }
        lemma_lex_total(a.drop_first(), b.drop_first(), lt);
        if lex_lt(a.drop_first(), b.drop_first(), lt) {
            lemma_lex_cons(a, b, lt);
        } else {
            lemma_lex_cons(b, a, lt);
        }
    }
}

/// Sequences that agree before `i` and differ at `i` by `lt` are ordered by `lt` at `i`.
pub proof fn lemma_lex_at<A>(a: Seq<A>, b: Seq<A>, lt: spec_fn(A, A) -> bool, i: int)
    requires
        strict_total(lt),
        0 <= i < a.len(),
        i < b.len(),
        a.take(i) == b.take(i),
        lt(a[i], b[i]),
    ensures
        lex_lt(a, b, lt),
        !lex_lt(b, a, lt),
        a != b,
{
    assert(lex_lt(a, b, lt));
    if lex_lt(b, a, lt) {
        lemma_lex_transitive(a, b, a, lt);
        lemma_lex_irreflexive(a, lt);
    }
}

/// A sequence comes before any longer sequence that it begins.
pub proof fn lemma_lex_prefix<A>(a: Seq<A>, b: Seq<A>, lt: spec_fn(A, A) -> bool)
    requires
        strict_total(lt),
        a.len() <= b.len(),
        a == b.take(a.len() as int),
    ensures
        a.len() < b.len() ==> lex_lt(a, b, lt) && !lex_lt(b, a, lt),
        a.len() == b.len() ==> a == b,
{
    if a.len() < b.len() {
        assert(a.take(a.len() as int) =~= a);
        assert(lex_lt(a, b, lt));
        if lex_lt(b, a, lt) {
            lemma_lex_transitive(a, b, a, lt);
            lemma_lex_irreflexive(a, lt);
        }
    } else {
        assert(b.take(b.len() as int) =~= b);
    }
}

} // verus!
