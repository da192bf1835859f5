//! Tables keyed by function identifiers: the costs of functions and the costs of calls.
use vstd::prelude::*;
use crate::assoc::{
    assoc_map, keys_distinct, lemma_assoc_absent, lemma_assoc_at, lemma_assoc_dom, lemma_assoc_push,
    lemma_assoc_same, lemma_assoc_set, lemma_assoc_take_step, lemma_keys_distinct_step, lemma_same_keys, lemma_merge_with_insert, merge_with,
};
use crate::id::{Id, IdText, IdView};
use crate::metrics::{
    first_missing_cache_event, lemma_metrics_sum_associative, lemma_metrics_sum_commutative, has_cache_events, metrics_sum, with_summary, EventKind, Metrics,
};

verus! {

/// The sum of two cost tables: the metrics of a function present in both are added.
pub open spec fn cost_table_sum(
    a: Map<IdView, Map<EventKind, u64>>,
    b: Map<IdView, Map<EventKind, u64>>,
) -> Map<IdView, Map<EventKind, u64>> {
    merge_with(a, b, |x: Map<EventKind, u64>, y: Map<EventKind, u64>| metrics_sum(x, y))
}

/// A cost table with the metrics `m` added to the entry of `k`.
pub open spec fn cost_table_add(
    a: Map<IdView, Map<EventKind, u64>>,
    k: IdView,
    m: Map<EventKind, u64>,
) -> Map<IdView, Map<EventKind, u64>> {
    a.insert(
        k,
        if a.contains_key(k) {
            metrics_sum(a[k], m)
        } else {
            m
        },
    )
}

/// The functions as written with one more, `k` written `x`, unless `k` is written already.
pub open spec fn texts_add(t: Map<IdView, IdText>, k: IdView, x: IdText) -> Map<IdView, IdText> {
    if t.contains_key(k) {
        t
    } else {
        t.insert(k, x)
    }
}

/// The functions as written of two tables: where both have a function, as the first writes it.
pub open spec fn texts_union(a: Map<IdView, IdText>, b: Map<IdView, IdText>) -> Map<IdView, IdText> {
    merge_with(a, b, |x: IdText, y: IdText| x)
}

/// Adding one more written function to the second operand of `texts_union`.
proof fn lemma_texts_union_insert(a: Map<IdView, IdText>, b: Map<IdView, IdText>, k: IdView, x: IdText)
    requires
        !b.contains_key(k),
    ensures
        texts_union(a, b.insert(k, x)) == texts_add(texts_union(a, b), k, x),
{
    lemma_merge_with_insert(a, b, |x: IdText, y: IdText| x, k, x);
    assert(texts_union(a, b.insert(k, x)) =~= texts_add(texts_union(a, b), k, x));
}

/// Metrics by function, at most one entry per function.
#[derive(Debug, Clone)]
pub struct CostTable {
    entries: Vec<(Id, Metrics)>,
}

impl View for CostTable {
    type V = Map<IdView, Map<EventKind, u64>>;

    open spec fn view(&self) -> Map<IdView, Map<EventKind, u64>> {
        assoc_map(self.pairs())
    }
}

impl CostTable {
    /// The entries in table order, by their abstract values.
    pub closed spec fn pairs(&self) -> Seq<(IdView, Map<EventKind, u64>)> {
        self.entries@.map_values(|e: (Id, Metrics)| (e.0@, e.1@))
    }

    /// The functions of the entries as written, in table order.
    pub closed spec fn text_pairs(&self) -> Seq<(IdView, IdText)> {
        self.entries@.map_values(|e: (Id, Metrics)| (e.0@, e.0.text()))
    }

    /// Each function of the table as written in its entry.
    pub open spec fn texts(&self) -> Map<IdView, IdText> {
        assoc_map(self.text_pairs())
    }

    /// The written functions have the keys of the entries.
    pub proof fn lemma_texts(&self)
        requires
            self.wf(),
        ensures
            keys_distinct(self.text_pairs()),
            self.texts().dom() == self@.dom(),
            self.text_pairs().len() == self.pairs().len(),
            forall|i: int|
                0 <= i < self.text_pairs().len() ==> #[trigger] self.text_pairs()[i].0 == self.pairs()[i].0,
    {
        lemma_same_keys(self.pairs(), self.text_pairs());
    }

    /// No function occurs twice and all metrics are well formed.
    pub closed spec fn wf(&self) -> bool {
        &&& keys_distinct(self.pairs())
        &&& forall|i: int| 0 <= i < self.entries@.len() ==> (#[trigger] self.entries@[i]).1.wf()
    }

    /// Facts about the entries of a well-formed table.
    pub proof fn lemma_wf(&self)
        requires
            self.wf(),
        ensures
            keys_distinct(self.pairs()),
            self@.dom().finite(),
            self@.dom().len() == self.pairs().len(),
            forall|i: int|
                0 <= i < self.pairs().len() ==> self@.contains_key(#[trigger] self.pairs()[i].0)
                    && self@[self.pairs()[i].0] == self.pairs()[i].1,
    {
        lemma_assoc_dom(self.pairs());
        assert forall|i: int| 0 <= i < self.pairs().len() implies self@.contains_key(
            #[trigger] self.pairs()[i].0,
        ) && self@[self.pairs()[i].0] == self.pairs()[i].1 by {
            lemma_assoc_at(self.pairs(), i);
        }
    }

    /// An empty table.
    pub fn new() -> (r: Self)
        ensures
            r.wf(),
            r@ == Map::<IdView, Map<EventKind, u64>>::empty(),
            r.pairs() == Seq::<(IdView, Map<EventKind, u64>)>::empty(),
            r.texts() == Map::<IdView, IdText>::empty(),
    {
        let r = CostTable { entries: Vec::new() };
        assert(r.texts() =~= Map::<IdView, IdText>::empty());
        assert(r.pairs() =~= Seq::<(IdView, Map<EventKind, u64>)>::empty());
        assert(r@ =~= Map::<IdView, Map<EventKind, u64>>::empty());
        r
    }

    /// The number of entries.
    pub fn len(&self) -> (n: usize)
        ensures
            n == self.pairs().len(),
    {
        self.entries.len()
    }

    /// Whether the table has no entry.
    pub fn is_empty(&self) -> (r: bool)
        requires
            self.wf(),
        ensures
            r == (self@.dom().len() == 0),
            r == (self@ == Map::<IdView, Map<EventKind, u64>>::empty()),
    {
        proof {
            self.lemma_wf();
            if self.pairs().len() > 0 {
                assert(self@.contains_key(self.pairs()[0].0));
            } else {
                assert(self@ =~= Map::<IdView, Map<EventKind, u64>>::empty());
            }
        }
        self.entries.len() == 0
    }

    /// The entry at position `i`.
    pub fn entry(&self, i: usize) -> (r: (&Id, &Metrics))
        requires
            self.wf(),
            i < self.pairs().len(),
        ensures
            r.0@ == self.pairs()[i as int].0,
            r.1@ == self.pairs()[i as int].1,
            r.1.wf(),
            self.texts().contains_key(r.0@),
            self.texts()[r.0@] == r.0.text(),
    {
        assert(self.entries@[i as int].1.wf());
        proof {
            self.lemma_texts();
            lemma_assoc_at(self.text_pairs(), i as int);
        }
        (&self.entries[i].0, &self.entries[i].1)
    }

    fn find(&self, id: &Id) -> (r: Option<usize>)
        requires
            self.wf(),
        ensures
            match r {
                Some(i) => i < self.pairs().len() && self.pairs()[i as int].0 == id@,
                None => !self@.contains_key(id@),
            },
    {
        let mut i: usize = 0;
        while i < self.entries.len()
            invariant
                i <= self.entries.len(),
                forall|j: int| 0 <= j < i ==> #[trigger] self.pairs()[j].0 != id@,
            decreases self.entries.len() - i,
        {
            if self.entries[i].0.same(id) {
                return Some(i);
            }
            i = i + 1;
        }
        proof {
            lemma_assoc_absent(self.pairs(), id@);
        }
        None
    }

    /// The metrics of `id`, if the table has them.
    pub fn get(&self, id: &Id) -> (r: Option<&Metrics>)
        requires
            self.wf(),
        ensures
            match r {
                Some(m) => self@.contains_key(id@) && m@ == self@[id@] && m.wf(),
                None => !self@.contains_key(id@),
            },
    {
        match self.find(id) {
            Some(i) => {
                proof {
                    lemma_assoc_at(self.pairs(), i as int);
                }
                assert(self.entries@[i as int].1.wf());
                Some(&self.entries[i].1)
            },
            None => None,
        }
    }

    /// Whether the table has an entry for `id`.
    pub fn contains_key(&self, id: &Id) -> (r: bool)
        requires
            self.wf(),
        ensures
            r == self@.contains_key(id@),
    {
        self.find(id).is_some()
    }

    /// Adds `metrics` to the entry of `id`, creating the entry if there is none.
    pub fn add_metrics(&mut self, id: &Id, metrics: &Metrics)
        requires
            old(self).wf(),
            metrics.wf(),
        ensures
            final(self).wf(),
            final(self)@ == cost_table_add(old(self)@, id@, metrics@),
            final(self).texts() == texts_add(old(self).texts(), id@, id.text()),
    {
        proof {
            self.lemma_texts();
        }
        match self.find(id) {
            Some(i) => {
                let ghost p = self.pairs();
                let ghost tp = self.text_pairs();
                assert(self.entries@[i as int].1.wf());
                let mut m = self.entries[i].1.duplicate();
                m.add(metrics);
                let k = self.entries[i].0.duplicate();
                proof {
                    lemma_assoc_at(p, i as int);
                    lemma_assoc_set(p, i as int, m@);
                }
                self.entries.set(i, (k, m));
                proof {
                    assert(self.text_pairs() =~= tp);
                    assert(self.pairs() =~= p.update(i as int, (p[i as int].0, m@)));
                    assert forall|j: int| 0 <= j < self.entries@.len() implies (
                    #[trigger] self.entries@[j]).1.wf() by {
                        if j != i {
                            assert(self.entries@[j] == old(self).entries@[j]);
                        }
                    }
                }
            },
            None => {
                let ghost p = self.pairs();
                let ghost tp = self.text_pairs();
                let m = metrics.duplicate();
                proof {
                    lemma_assoc_push(p, id@, m@);
                    lemma_assoc_push(tp, id@, id.text());
                }
                self.entries.push((id.duplicate(), m));
                proof {
                    assert(self.text_pairs() =~= tp.push((id@, id.text())));
                    assert(self.pairs() =~= p.push((id@, m@)));
                    assert forall|j: int| 0 <= j < self.entries@.len() implies (
                    #[trigger] self.entries@[j]).1.wf() by {
                        if j < p.len() {
                            assert(self.entries@[j] == old(self).entries@[j]);
                        }
                    }
                }
            },
        }
    }

    /// Adds every entry of `other` to this table.
    pub fn merge(&mut self, other: &CostTable)
        requires
            old(self).wf(),
            other.wf(),
        ensures
            final(self).wf(),
            final(self)@ == cost_table_sum(old(self)@, other@),
            final(self).texts() == texts_union(old(self).texts(), other.texts()),
    {
        let ghost a = self@;
        let ghost at = self.texts();
        let ghost q = other.pairs();
        let ghost qt = other.text_pairs();
        proof {
            other.lemma_wf();
            other.lemma_texts();
            assert(cost_table_sum(a, assoc_map(q.take(0))) =~= a);
            assert(texts_union(at, assoc_map(qt.take(0))) =~= at);
        }
        let mut i: usize = 0;
        while i < other.len()
            invariant
                i <= other.pairs().len(),
                q == other.pairs(),
                other.wf(),
                keys_distinct(q),
                self.wf(),
                self@ == cost_table_sum(a, assoc_map(q.take(i as int))),
                qt == other.text_pairs(),
                keys_distinct(qt),
                qt.len() == q.len(),
                self.texts() == texts_union(at, assoc_map(qt.take(i as int))),
            decreases other.pairs().len() - i,
        {
            let (k, m) = other.entry(i);
            proof {
                lemma_assoc_take_step(qt, i as int);
                lemma_assoc_at(qt, i as int);
                assert(qt[i as int].0 == k@);
                lemma_texts_union_insert(at, assoc_map(qt.take(i as int)), k@, k.text());
                lemma_assoc_take_step(q, i as int);
                lemma_merge_with_insert(
                    a,
                    assoc_map(q.take(i as int)),
                    |x: Map<EventKind, u64>, y: Map<EventKind, u64>| metrics_sum(x, y),
                    k@,
                    m@,
                );
            }
            self.add_metrics(k, m);
            i = i + 1;
        }
        assert(q.take(q.len() as int) =~= q);
        assert(qt.take(qt.len() as int) =~= qt);
    }

    /// Whether the table is well formed: no function has two entries, and each entry is
    /// well formed.
    pub fn check_wf(&self) -> (r: bool)
        ensures
            r == self.wf(),
    {
        let mut i: usize = 0;
        while i < self.entries.len()
            invariant
                i <= self.entries.len(),
                keys_distinct(self.pairs().take(i as int)),
                forall|j: int| 0 <= j < i ==> (#[trigger] self.entries@[j]).1.wf(),
            decreases self.entries.len() - i,
        {
            if !self.entries[i].1.check_wf() {
                return false;
            }
            let mut j: usize = 0;
            while j < i
                invariant
                    i < self.entries.len(),
                    j <= i,
                    forall|x: int| 0 <= x < j ==> #[trigger] self.pairs()[x].0 != self.pairs()[i as int].0,
                decreases i - j,
            {
                if self.entries[j].0.same(&self.entries[i].0) {
                    assert(self.pairs()[j as int].0 == self.pairs()[i as int].0);
                    return false;
                }
                j = j + 1;
            }
            proof {
                lemma_keys_distinct_step(self.pairs(), i as int);
            }
            i = i + 1;
        }
        assert(self.pairs().take(self.pairs().len() as int) =~= self.pairs());
        true
    }

    /// Whether both tables hold the same entries.
    pub fn same(&self, other: &CostTable) -> (r: bool)
        requires
            self.wf(),
            other.wf(),
        ensures
            r == (self@ == other@),
    {
        proof {
            self.lemma_wf();
            other.lemma_wf();
        }
        let mut i: usize = 0;
        while i < self.len()
            invariant
                self.wf(),
                other.wf(),
                i <= self.pairs().len(),
                forall|j: int|
                    0 <= j < self.pairs().len() ==> self@.contains_key(#[trigger] self.pairs()[j].0)
                        && self@[self.pairs()[j].0] == self.pairs()[j].1,
                forall|j: int|
                    0 <= j < i ==> other@.contains_key(#[trigger] self.pairs()[j].0)
                        && other@[self.pairs()[j].0] == self.pairs()[j].1,
            decreases self.pairs().len() - i,
        {
            let (k, v) = self.entry(i);
            match other.get(k) {
                Some(w) => {
                    if !w.same(v) {
                        return false;
                    }
                },
                None => {
                    return false;
                },
            }
            i = i + 1;
        }
        let mut j: usize = 0;
        while j < other.len()
            invariant
                self.wf(),
                other.wf(),
                j <= other.pairs().len(),
                forall|x: int|
                    0 <= x < other.pairs().len() ==> other@.contains_key(#[trigger] other.pairs()[x].0),
                forall|x: int|
                    0 <= x < self.pairs().len() ==> other@.contains_key(#[trigger] self.pairs()[x].0)
                        && other@[self.pairs()[x].0] == self.pairs()[x].1,
                forall|x: int| 0 <= x < j ==> self@.contains_key(#[trigger] other.pairs()[x].0),
            decreases other.pairs().len() - j,
        {
            let (k, _) = other.entry(j);
            if !self.contains_key(k) {
                return false;
            }
            j = j + 1;
        }
        proof {
            lemma_assoc_same(self.pairs(), other.pairs());
        }
        true
    }

    /// A copy of this table.
    pub fn duplicate(&self) -> (r: Self)
        requires
            self.wf(),
        ensures
            r.wf(),
            r@ == self@,
            r.texts() == self.texts(),
    {
        let mut r = CostTable::new();
        r.merge(self);
        proof {
            crate::assoc::lemma_merge_with_empty(self.texts(), |x: IdText, y: IdText| x);
            crate::assoc::lemma_merge_with_empty(
                self@,
                |x: Map<EventKind, u64>, y: Map<EventKind, u64>| metrics_sum(x, y),
            );
        }
        r
    }
}

/// The entries of `s` with the summary events added to the first `j` of them.
pub open spec fn summarized_prefix(s: Seq<(IdView, Map<EventKind, u64>)>, j: int) -> Seq<
    (IdView, Map<EventKind, u64>),
> {
    Seq::new(
        s.len(),
        |i: int|
            if i < j {
                (s[i].0, with_summary(s[i].1))
            } else {
                s[i]
            },
    )
}

impl CostTable {
    /// Computes the summary events of every entry, in table order. Stops at the first entry
    /// that lacks a cache event, whose first missing event is returned; the entries before it
    /// are summarized by then, and the others are unchanged.
    pub fn summarize_all(&mut self) -> (r: Result<(), EventKind>)
        requires
            old(self).wf(),
        ensures
            final(self).wf(),
            r is Ok <==> forall|i: int|
                0 <= i < old(self).pairs().len() ==> has_cache_events(
                    #[trigger] old(self).pairs()[i].1,
                ),
            r is Ok ==> final(self).pairs() == summarized_prefix(
                old(self).pairs(),
                old(self).pairs().len() as int,
            ),
            r matches Err(k) ==> exists|j: int|
                0 <= j < old(self).pairs().len() && !has_cache_events(old(self).pairs()[j].1)
                    && (forall|i: int|
                    0 <= i < j ==> has_cache_events(#[trigger] old(self).pairs()[i].1)) && k
                    == first_missing_cache_event(old(self).pairs()[j].1) && final(self).pairs()
                    == summarized_prefix(old(self).pairs(), j),
    {
        let ghost p = self.pairs();
        let mut i: usize = 0;
        assert(self.pairs() =~= summarized_prefix(p, 0));
        while i < self.entries.len()
            invariant
                i <= self.entries.len(),
                p.len() == self.entries.len(),
                p == old(self).pairs(),
                self.wf(),
                self.pairs() == summarized_prefix(p, i as int),
                forall|j: int| 0 <= j < i ==> has_cache_events(#[trigger] p[j].1),
            decreases self.entries.len() - i,
        {
            assert(self.entries@[i as int].1.wf());
            let mut m = self.entries[i].1.duplicate();
            let ghost before = self.pairs();
            let ghost ents = self.entries@;
            assert(p[i as int] == before[i as int]);
            assert(before[i as int].1 == m@);
            match m.make_summary() {
                Ok(()) => {},
                Err(k) => {
                    assert(!has_cache_events(p[i as int].1));
                    assert(0 <= i < p.len() && !has_cache_events(p[i as int].1) && (forall|j: int|
                        0 <= j < i ==> has_cache_events(#[trigger] p[j].1)) && k
                        == first_missing_cache_event(p[i as int].1) && self.pairs()
                        == summarized_prefix(p, i as int));
                    return Err(k);
                },
            }
            let k = self.entries[i].0.duplicate();
            proof {
                lemma_assoc_set(before, i as int, m@);
            }
            self.entries.set(i, (k, m));
            proof {
                assert(self.pairs() =~= before.update(i as int, (before[i as int].0, m@)));
                assert(self.pairs() =~= summarized_prefix(p, i + 1));
                assert forall|j: int| 0 <= j < self.entries@.len() implies (
                #[trigger] self.entries@[j]).1.wf() by {
                    if j != i {
                        assert(self.entries@[j] == ents[j]);
                    }
                }
            }
            i = i + 1;
        }
        Ok(())
    }
}

/// The sum of two call tables: the costs of calls from a caller present in both are added.
pub open spec fn edge_table_sum(
    a: Map<IdView, Map<IdView, Map<EventKind, u64>>>,
    b: Map<IdView, Map<IdView, Map<EventKind, u64>>>,
) -> Map<IdView, Map<IdView, Map<EventKind, u64>>> {
    merge_with(
        a,
        b,
        |x: Map<IdView, Map<EventKind, u64>>, y: Map<IdView, Map<EventKind, u64>>|
            cost_table_sum(x, y),
    )
}

/// The callees of `caller` with their costs (none where `caller` calls nothing).
pub open spec fn callees_of(
    a: Map<IdView, Map<IdView, Map<EventKind, u64>>>,
    caller: IdView,
) -> Map<IdView, Map<EventKind, u64>> {
    if a.contains_key(caller) {
        a[caller]
    } else {
        Map::empty()
    }
}

/// A call table with one more call from `caller` to `callee` that cost `m`.
pub open spec fn edge_table_record(
    a: Map<IdView, Map<IdView, Map<EventKind, u64>>>,
    caller: IdView,
    callee: IdView,
    m: Map<EventKind, u64>,
) -> Map<IdView, Map<IdView, Map<EventKind, u64>>> {
    a.insert(caller, cost_table_add(callees_of(a, caller), callee, m))
}

/// The callees of `caller` as written (none where `caller` calls nothing).
pub open spec fn callee_texts_of(
    a: Map<IdView, Map<IdView, IdText>>,
    caller: IdView,
) -> Map<IdView, IdText> {
    if a.contains_key(caller) {
        a[caller]
    } else {
        Map::empty()
    }
}

/// The written callees once a call from `caller` to `callee`, written `x`, is recorded.
pub open spec fn callee_texts_record(
    a: Map<IdView, Map<IdView, IdText>>,
    caller: IdView,
    callee: IdView,
    x: IdText,
) -> Map<IdView, Map<IdView, IdText>> {
    a.insert(caller, texts_add(callee_texts_of(a, caller), callee, x))
}

/// The written callees of two call tables: for a caller in both, as `texts_union` gives them.
pub open spec fn callee_texts_union(
    a: Map<IdView, Map<IdView, IdText>>,
    b: Map<IdView, Map<IdView, IdText>>,
) -> Map<IdView, Map<IdView, IdText>> {
    merge_with(a, b, |x: Map<IdView, IdText>, y: Map<IdView, IdText>| texts_union(x, y))
}

/// The costs of calls: by caller, the callees with the costs of the calls to them.
#[derive(Debug, Clone)]
pub struct EdgeTable {
    entries: Vec<(Id, CostTable)>,
}

impl View for EdgeTable {
    type V = Map<IdView, Map<IdView, Map<EventKind, u64>>>;

    open spec fn view(&self) -> Map<IdView, Map<IdView, Map<EventKind, u64>>> {
        assoc_map(self.pairs())
    }
}

impl EdgeTable {
    /// The entries in table order, by their abstract values.
    pub closed spec fn pairs(&self) -> Seq<(IdView, Map<IdView, Map<EventKind, u64>>)> {
        self.entries@.map_values(|e: (Id, CostTable)| (e.0@, e.1@))
    }

    /// By caller, the callees as written in the caller's entry, in table order.
    pub closed spec fn text_pairs(&self) -> Seq<(IdView, Map<IdView, IdText>)> {
        self.entries@.map_values(|e: (Id, CostTable)| (e.0@, e.1.texts()))
    }

    /// By caller, each callee as written in the caller's entry.
    pub open spec fn callee_texts(&self) -> Map<IdView, Map<IdView, IdText>> {
        assoc_map(self.text_pairs())
    }

    /// The written callees have the keys of the entries.
    pub proof fn lemma_texts(&self)
        requires
            self.wf(),
        ensures
            keys_distinct(self.text_pairs()),
            self.callee_texts().dom() == self@.dom(),
            forall|k: IdView| #[trigger] self.callee_texts().contains_key(k) ==> self.callee_texts()[k].dom() == self@[k].dom(),
    {
        lemma_same_keys(self.pairs(), self.text_pairs());
        self.lemma_wf();
        assert forall|k: IdView| #[trigger] self.callee_texts().contains_key(k) implies self.callee_texts()[k].dom() == self@[k].dom() by {
            let i = choose|i: int| 0 <= i < self.text_pairs().len() && #[trigger] self.text_pairs()[i].0 == k;
            lemma_assoc_at(self.text_pairs(), i);
            assert(self.pairs()[i].0 == k);
            assert(self.entries@[i].1.wf());
            self.entries@[i].1.lemma_texts();
        }
    }

    /// No caller occurs twice and all callee tables are well formed.
    pub closed spec fn wf(&self) -> bool {
        &&& keys_distinct(self.pairs())
        &&& forall|i: int| 0 <= i < self.entries@.len() ==> (#[trigger] self.entries@[i]).1.wf()
    }

    /// Facts about the entries of a well-formed table.
    pub proof fn lemma_wf(&self)
        requires
            self.wf(),
        ensures
            keys_distinct(self.pairs()),
            self@.dom().finite(),
            forall|k: IdView| #[trigger] self@.contains_key(k) ==> self@[k].dom().finite(),
            forall|i: int|
                0 <= i < self.pairs().len() ==> self@.contains_key(#[trigger] self.pairs()[i].0)
                    && self@[self.pairs()[i].0] == self.pairs()[i].1,
    {
        lemma_assoc_dom(self.pairs());
        assert forall|i: int| 0 <= i < self.pairs().len() implies self@.contains_key(
            #[trigger] self.pairs()[i].0,
        ) && self@[self.pairs()[i].0] == self.pairs()[i].1 by {
            lemma_assoc_at(self.pairs(), i);
        }
        assert forall|k: IdView| #[trigger] self@.contains_key(k) implies self@[k].dom().finite() by {
            let i = choose|i: int| 0 <= i < self.pairs().len() && #[trigger] self.pairs()[i].0 == k;
            lemma_assoc_at(self.pairs(), i);
            assert(self.entries@[i].1.wf());
            self.entries@[i].1.lemma_wf();
        }
    }

    /// An empty table.
    pub fn new() -> (r: Self)
        ensures
            r.wf(),
            r@ == Map::<IdView, Map<IdView, Map<EventKind, u64>>>::empty(),
            r.callee_texts() == Map::<IdView, Map<IdView, IdText>>::empty(),
    {
        let r = EdgeTable { entries: Vec::new() };
        assert(r.callee_texts() =~= Map::<IdView, Map<IdView, IdText>>::empty());
        assert(r.pairs() =~= Seq::<(IdView, Map<IdView, Map<EventKind, u64>>)>::empty());
        assert(r@ =~= Map::<IdView, Map<IdView, Map<EventKind, u64>>>::empty());
        r
    }

    /// The number of callers.
    pub fn len(&self) -> (n: usize)
        ensures
            n == self.pairs().len(),
    {
        self.entries.len()
    }

    /// The entry at position `i`.
    pub fn entry(&self, i: usize) -> (r: (&Id, &CostTable))
        requires
            self.wf(),
            i < self.pairs().len(),
        ensures
            r.0@ == self.pairs()[i as int].0,
            r.1@ == self.pairs()[i as int].1,
            r.1.wf(),
            self.callee_texts().contains_key(r.0@),
            self.callee_texts()[r.0@] == r.1.texts(),
    {
        assert(self.entries@[i as int].1.wf());
        proof {
            self.lemma_texts();
            lemma_assoc_at(self.text_pairs(), i as int);
        }
        (&self.entries[i].0, &self.entries[i].1)
    }

    fn find(&self, id: &Id) -> (r: Option<usize>)
        requires
            self.wf(),
        ensures
            match r {
                Some(i) => i < self.pairs().len() && self.pairs()[i as int].0 == id@,
                None => !self@.contains_key(id@),
            },
    {
        let mut i: usize = 0;
        while i < self.entries.len()
            invariant
                i <= self.entries.len(),
                forall|j: int| 0 <= j < i ==> #[trigger] self.pairs()[j].0 != id@,
            decreases self.entries.len() - i,
        {
            if self.entries[i].0.same(id) {
                return Some(i);
            }
            i = i + 1;
        }
        proof {
            lemma_assoc_absent(self.pairs(), id@);
        }
        None
    }

    /// The callees of `id`, if it calls any.
    pub fn get(&self, id: &Id) -> (r: Option<&CostTable>)
        requires
            self.wf(),
        ensures
            match r {
                Some(t) => self@.contains_key(id@) && t@ == self@[id@] && t.wf()
                    && self.callee_texts()[id@] == t.texts(),
                None => !self@.contains_key(id@),
            },
    {
        match self.find(id) {
            Some(i) => {
                proof {
                    lemma_assoc_at(self.pairs(), i as int);
                    self.lemma_texts();
                    lemma_assoc_at(self.text_pairs(), i as int);
                }
                assert(self.entries@[i as int].1.wf());
                Some(&self.entries[i].1)
            },
            None => None,
        }
    }

    /// Whether the table is well formed: no function has two entries, and each entry is
    /// well formed.
    pub fn check_wf(&self) -> (r: bool)
        ensures
            r == self.wf(),
    {
        let mut i: usize = 0;
        while i < self.entries.len()
            invariant
                i <= self.entries.len(),
                keys_distinct(self.pairs().take(i as int)),
                forall|j: int| 0 <= j < i ==> (#[trigger] self.entries@[j]).1.wf(),
            decreases self.entries.len() - i,
        {
            if !self.entries[i].1.check_wf() {
                return false;
            }
            let mut j: usize = 0;
            while j < i
                invariant
                    i < self.entries.len(),
                    j <= i,
                    forall|x: int| 0 <= x < j ==> #[trigger] self.pairs()[x].0 != self.pairs()[i as int].0,
                decreases i - j,
            {
                if self.entries[j].0.same(&self.entries[i].0) {
                    assert(self.pairs()[j as int].0 == self.pairs()[i as int].0);
                    return false;
                }
                j = j + 1;
            }
            proof {
                lemma_keys_distinct_step(self.pairs(), i as int);
            }
            i = i + 1;
        }
        assert(self.pairs().take(self.pairs().len() as int) =~= self.pairs());
        true
    }

    /// Whether both tables hold the same entries.
    pub fn same(&self, other: &EdgeTable) -> (r: bool)
        requires
            self.wf(),
            other.wf(),
        ensures
            r == (self@ == other@),
    {
        proof {
            self.lemma_wf();
            other.lemma_wf();
        }
        let mut i: usize = 0;
        while i < self.len()
            invariant
                self.wf(),
                other.wf(),
                i <= self.pairs().len(),
                forall|j: int|
                    0 <= j < self.pairs().len() ==> self@.contains_key(#[trigger] self.pairs()[j].0)
                        && self@[self.pairs()[j].0] == self.pairs()[j].1,
                forall|j: int|
                    0 <= j < i ==> other@.contains_key(#[trigger] self.pairs()[j].0)
                        && other@[self.pairs()[j].0] == self.pairs()[j].1,
            decreases self.pairs().len() - i,
        {
            let (k, v) = self.entry(i);
            match other.get(k) {
                Some(w) => {
                    if !w.same(v) {
                        return false;
                    }
                },
                None => {
                    return false;
                },
            }
            i = i + 1;
        }
        let mut j: usize = 0;
        while j < other.len()
            invariant
                self.wf(),
                other.wf(),
                j <= other.pairs().len(),
                forall|x: int|
                    0 <= x < other.pairs().len() ==> other@.contains_key(#[trigger] other.pairs()[x].0),
                forall|x: int|
                    0 <= x < self.pairs().len() ==> other@.contains_key(#[trigger] self.pairs()[x].0)
                        && other@[self.pairs()[x].0] == self.pairs()[x].1,
                forall|x: int| 0 <= x < j ==> self@.contains_key(#[trigger] other.pairs()[x].0),
            decreases other.pairs().len() - j,
        {
            let (k, _) = other.entry(j);
            if !self.contains_key(k) {
                return false;
            }
            j = j + 1;
        }
        proof {
            lemma_assoc_same(self.pairs(), other.pairs());
        }
        true
    }

    /// Whether `id` calls anything.
    pub fn contains_key(&self, id: &Id) -> (r: bool)
        requires
            self.wf(),
        ensures
            r == self@.contains_key(id@),
    {
        self.find(id).is_some()
    }

    /// Sets the callees of the entry at `i`.
    fn set_callees(&mut self, i: usize, t: CostTable)
        requires
            old(self).wf(),
            i < old(self).pairs().len(),
            t.wf(),
        ensures
            final(self).wf(),
            final(self)@ == old(self)@.insert(old(self).pairs()[i as int].0, t@),
            final(self).callee_texts() == old(self).callee_texts().insert(
                old(self).pairs()[i as int].0,
                t.texts(),
            ),
    {
        let ghost p = self.pairs();
        let ghost tp = self.text_pairs();
        let ghost tt = t.texts();
        let k = self.entries[i].0.duplicate();
        proof {
            lemma_assoc_set(p, i as int, t@);
            self.lemma_texts();
            lemma_assoc_set(tp, i as int, tt);
        }
        self.entries.set(i, (k, t));
        proof {
            assert(self.text_pairs() =~= tp.update(i as int, (tp[i as int].0, tt)));
            assert(self.pairs() =~= p.update(i as int, (p[i as int].0, t@)));
            assert forall|j: int| 0 <= j < self.entries@.len() implies (
            #[trigger] self.entries@[j]).1.wf() by {
                if j != i {
                    assert(self.entries@[j] == old(self).entries@[j]);
                }
            }
        }
    }

    /// Adds an entry for `id`, which has none.
    fn push_new(&mut self, id: &Id, t: CostTable)
        requires
            old(self).wf(),
            !old(self)@.contains_key(id@),
            t.wf(),
        ensures
            final(self).wf(),
            final(self)@ == old(self)@.insert(id@, t@),
            final(self).callee_texts() == old(self).callee_texts().insert(id@, t.texts()),
    {
        let ghost p = self.pairs();
        let ghost tp = self.text_pairs();
        let ghost tt = t.texts();
        proof {
            lemma_assoc_push(p, id@, t@);
            self.lemma_texts();
            lemma_assoc_push(tp, id@, tt);
        }
        self.entries.push((id.duplicate(), t));
        proof {
            assert(self.text_pairs() =~= tp.push((id@, tt)));
            assert(self.pairs() =~= p.push((id@, t@)));
            assert forall|j: int| 0 <= j < self.entries@.len() implies (
            #[trigger] self.entries@[j]).1.wf() by {
                if j < p.len() {
                    assert(self.entries@[j] == old(self).entries@[j]);
                }
            }
        }
    }

    /// Records a call from `caller` to `callee` that cost `metrics`: added to the cost of
    /// earlier such calls, if any.
    pub fn record(&mut self, caller: &Id, callee: &Id, metrics: &Metrics)
        requires
            old(self).wf(),
            metrics.wf(),
        ensures
            final(self).wf(),
            final(self)@ == edge_table_record(old(self)@, caller@, callee@, metrics@),
            final(self).callee_texts() == callee_texts_record(
                old(self).callee_texts(),
                caller@,
                callee@,
                callee.text(),
            ),
    {
        proof {
            self.lemma_texts();
        }
        match self.find(caller) {
            Some(i) => {
                proof {
                    lemma_assoc_at(self.pairs(), i as int);
                    lemma_assoc_at(self.text_pairs(), i as int);
                }
                assert(self.entries@[i as int].1.wf());
                let mut t = self.entries[i].1.duplicate();
                t.add_metrics(callee, metrics);
                self.set_callees(i, t);
            },
            None => {
                let mut t = CostTable::new();
                t.add_metrics(callee, metrics);
                self.push_new(caller, t);
            },
        }
    }

    /// Adds every call of `other` to this table.
    pub fn merge(&mut self, other: &EdgeTable)
        requires
            old(self).wf(),
            other.wf(),
        ensures
            final(self).wf(),
            final(self)@ == edge_table_sum(old(self)@, other@),
            final(self).callee_texts() == callee_texts_union(old(self).callee_texts(), other.callee_texts()),
    {
        let ghost a = self@;
        let ghost at = self.callee_texts();
        let ghost q = other.pairs();
        let ghost qt = other.text_pairs();
        proof {
            other.lemma_wf();
            other.lemma_texts();
            assert(edge_table_sum(a, assoc_map(q.take(0))) =~= a);
            assert(callee_texts_union(at, assoc_map(qt.take(0))) =~= at);
        }
        let mut i: usize = 0;
        while i < other.len()
            invariant
                i <= other.pairs().len(),
                q == other.pairs(),
                other.wf(),
                keys_distinct(q),
                self.wf(),
                self@ == edge_table_sum(a, assoc_map(q.take(i as int))),
                qt == other.text_pairs(),
                keys_distinct(qt),
                qt.len() == q.len(),
                forall|j: int| 0 <= j < q.len() ==> #[trigger] qt[j].0 == q[j].0,
                self.callee_texts() == callee_texts_union(at, assoc_map(qt.take(i as int))),
            decreases other.pairs().len() - i,
        {
            let (k, t) = other.entry(i);
            proof {
                lemma_assoc_take_step(qt, i as int);
                lemma_merge_with_insert(
                    at,
                    assoc_map(qt.take(i as int)),
                    |x: Map<IdView, IdText>, y: Map<IdView, IdText>| texts_union(x, y),
                    k@,
                    t.texts(),
                );
                lemma_assoc_at(qt, i as int);
                assert(qt[i as int] == (k@, t.texts()));
                self.lemma_texts();
                lemma_assoc_take_step(q, i as int);
                lemma_merge_with_insert(
                    a,
                    assoc_map(q.take(i as int)),
                    |x: Map<IdView, Map<EventKind, u64>>, y: Map<IdView, Map<EventKind, u64>>|
                        cost_table_sum(x, y),
                    k@,
                    t@,
                );
            }
            match self.find(k) {
                Some(j) => {
                    proof {
                        lemma_assoc_at(self.pairs(), j as int);
                        lemma_assoc_at(self.text_pairs(), j as int);
                    }
                    assert(self.entries@[j as int].1.wf());
                    let mut mine = self.entries[j].1.duplicate();
                    mine.merge(t);
                    self.set_callees(j, mine);
                },
                None => {
                    let copy = t.duplicate();
                    self.push_new(k, copy);
                },
            }
            i = i + 1;
        }
        assert(q.take(q.len() as int) =~= q);
        assert(qt.take(qt.len() as int) =~= qt);
    }
}

/// A finite set of function identifiers.
#[derive(Debug)]
pub struct IdSet {
    items: Vec<Id>,
}

impl View for IdSet {
    type V = Set<IdView>;

    closed spec fn view(&self) -> Set<IdView> {
        self.items@.map_values(|x: Id| x@).to_set()
    }
}

impl IdSet {
    /// An empty set.
    pub fn new() -> (r: Self)
        ensures
            r@ == Set::<IdView>::empty(),
    {
        let r = IdSet { items: Vec::new() };
        assert(r@ =~= Set::<IdView>::empty());
        r
    }

    /// Whether `id` is in the set.
    pub fn contains(&self, id: &Id) -> (r: bool)
        ensures
            r == self@.contains(id@),
    {
        let mut i: usize = 0;
        while i < self.items.len()
            invariant
                i <= self.items.len(),
                forall|j: int| 0 <= j < i ==> (#[trigger] self.items@[j])@ != id@,
            decreases self.items.len() - i,
        {
            if self.items[i].same(id) {
                assert(self.items@.map_values(|x: Id| x@)[i as int] == id@);
                return true;
            }
            i = i + 1;
        }
        proof {
            if self@.contains(id@) {
                let s = self.items@.map_values(|x: Id| x@);
                let j = choose|j: int| 0 <= j < s.len() && s[j] == id@;
                assert(self.items@[j]@ == id@);
            }
        }
        false
    }

    /// Adds `id`; returns whether it was absent before.
    pub fn insert(&mut self, id: &Id) -> (r: bool)
        ensures
            final(self)@ == old(self)@.insert(id@),
            r == !old(self)@.contains(id@),
    {
        if self.contains(id) {
            assert(self@ =~= self@.insert(id@));
            false
        } else {
            let ghost s = self.items@.map_values(|x: Id| x@);
            self.items.push(id.duplicate());
            assert(self.items@.map_values(|x: Id| x@) =~= s.push(id@));
            assert(self@ =~= old(self)@.insert(id@)) by {
                assert forall|x: IdView| self@.contains(x) <==> old(self)@.insert(id@).contains(x) by {
                    if x != id@ && s.push(id@).contains(x) {
                        let j = choose|j: int| 0 <= j < s.push(id@).len() && s.push(id@)[j] == x;
                        assert(s[j] == x);
                    }
                    if s.contains(x) {
                        let j = choose|j: int| 0 <= j < s.len() && s[j] == x;
                        assert(s.push(id@)[j] == x);
                    }
                    if x == id@ {
                        assert(s.push(id@)[s.len() as int] == x);
                    }
                }
            }
            true
        }
    }
}

/// Adding cost tables does not depend on the order of the operands.
pub proof fn lemma_cost_table_sum_commutative(
    a: Map<IdView, Map<EventKind, u64>>,
    b: Map<IdView, Map<EventKind, u64>>,
)
    ensures
        cost_table_sum(a, b) == cost_table_sum(b, a),
{
    assert forall|k: IdView| a.contains_key(k) && b.contains_key(k) implies metrics_sum(a[k], b[k])
        == metrics_sum(b[k], a[k]) by {
        lemma_metrics_sum_commutative(a[k], b[k]);
    }
    assert(cost_table_sum(a, b) =~= cost_table_sum(b, a));
}

/// Adding cost tables is associative.
pub proof fn lemma_cost_table_sum_associative(
    a: Map<IdView, Map<EventKind, u64>>,
    b: Map<IdView, Map<EventKind, u64>>,
    c: Map<IdView, Map<EventKind, u64>>,
)
    ensures
        cost_table_sum(cost_table_sum(a, b), c) == cost_table_sum(a, cost_table_sum(b, c)),
{
    assert forall|k: IdView| a.contains_key(k) && b.contains_key(k) && c.contains_key(k) implies metrics_sum(
        metrics_sum(a[k], b[k]),
        c[k],
    ) == metrics_sum(a[k], metrics_sum(b[k], c[k])) by {
        lemma_metrics_sum_associative(a[k], b[k], c[k]);
    }
    assert(cost_table_sum(cost_table_sum(a, b), c) =~= cost_table_sum(a, cost_table_sum(b, c)));
}

/// Adding call tables does not depend on the order of the operands.
pub proof fn lemma_edge_table_sum_commutative(
    a: Map<IdView, Map<IdView, Map<EventKind, u64>>>,
    b: Map<IdView, Map<IdView, Map<EventKind, u64>>>,
)
    ensures
        edge_table_sum(a, b) == edge_table_sum(b, a),
{
    assert forall|k: IdView| a.contains_key(k) && b.contains_key(k) implies cost_table_sum(a[k], b[k])
        == cost_table_sum(b[k], a[k]) by {
        lemma_cost_table_sum_commutative(a[k], b[k]);
    }
    assert(edge_table_sum(a, b) =~= edge_table_sum(b, a));
}

/// Adding call tables is associative.
pub proof fn lemma_edge_table_sum_associative(
    a: Map<IdView, Map<IdView, Map<EventKind, u64>>>,
    b: Map<IdView, Map<IdView, Map<EventKind, u64>>>,
    c: Map<IdView, Map<IdView, Map<EventKind, u64>>>,
)
    ensures
        edge_table_sum(edge_table_sum(a, b), c) == edge_table_sum(a, edge_table_sum(b, c)),
{
    assert forall|k: IdView| a.contains_key(k) && b.contains_key(k) && c.contains_key(k) implies cost_table_sum(
        cost_table_sum(a[k], b[k]),
        c[k],
    ) == cost_table_sum(a[k], cost_table_sum(b[k], c[k])) by {
        lemma_cost_table_sum_associative(a[k], b[k], c[k]);
    }
    assert(edge_table_sum(edge_table_sum(a, b), c) =~= edge_table_sum(a, edge_table_sum(b, c)));
}

/// Adding an empty table changes nothing.
pub proof fn lemma_table_sums_identity(
    a: Map<IdView, Map<EventKind, u64>>,
    e: Map<IdView, Map<IdView, Map<EventKind, u64>>>,
)
    ensures
        cost_table_sum(a, Map::empty()) == a,
        cost_table_sum(Map::empty(), a) == a,
        edge_table_sum(e, Map::empty()) == e,
        edge_table_sum(Map::empty(), e) == e,
{
    assert(cost_table_sum(a, Map::empty()) =~= a);
    assert(cost_table_sum(Map::empty(), a) =~= a);
    assert(edge_table_sum(e, Map::empty()) =~= e);
    assert(edge_table_sum(Map::empty(), e) =~= e);
}

} // verus!
