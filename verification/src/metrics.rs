//! Event kinds of callgrind and the per-function costs recorded for them.
use vstd::prelude::*;
use crate::assoc::{
    assoc_map, keys_distinct, lemma_assoc_absent, lemma_assoc_at, lemma_assoc_dom, lemma_assoc_push,
    lemma_assoc_same, lemma_assoc_set, lemma_keys_distinct_step, merge_with,
};

verus! {

/// The kinds of events that callgrind counts, and the summary events derived from them.
#[derive(Clone, Copy, Debug, PartialEq, Eq, Structural, Hash)]
pub enum EventKind {
    Ir,
    Dr,
    Dw,
    I1mr,
    D1mr,
    D1mw,
    ILmr,
    DLmr,
    DLmw,
    L1hits,
    LLhits,
    RamHits,
    TotalRW,
    EstimatedCycles,
    SysCount,
    SysTime,
    SysCpuTime,
    Ge,
    Bc,
    Bcm,
    Bi,
    Bim,
    ILdmr,
    DLdmr,
    DLdmw,
    AcCost1,
    AcCost2,
    SpLoss1,
    SpLoss2,
}

/// The name of an event kind, as callgrind writes it.
pub open spec fn event_name(k: EventKind) -> Seq<char> {
    match k {
        EventKind::Ir => "Ir"@,
        EventKind::Dr => "Dr"@,
        EventKind::Dw => "Dw"@,
        EventKind::I1mr => "I1mr"@,
        EventKind::D1mr => "D1mr"@,
        EventKind::D1mw => "D1mw"@,
        EventKind::ILmr => "ILmr"@,
        EventKind::DLmr => "DLmr"@,
        EventKind::DLmw => "DLmw"@,
        EventKind::L1hits => "L1hits"@,
        EventKind::LLhits => "LLhits"@,
        EventKind::RamHits => "RamHits"@,
        EventKind::TotalRW => "TotalRW"@,
        EventKind::EstimatedCycles => "EstimatedCycles"@,
        EventKind::SysCount => "SysCount"@,
        EventKind::SysTime => "SysTime"@,
        EventKind::SysCpuTime => "SysCpuTime"@,
        EventKind::Ge => "Ge"@,
        EventKind::Bc => "Bc"@,
        EventKind::Bcm => "Bcm"@,
        EventKind::Bi => "Bi"@,
        EventKind::Bim => "Bim"@,
        EventKind::ILdmr => "ILdmr"@,
        EventKind::DLdmr => "DLdmr"@,
        EventKind::DLdmw => "DLdmw"@,
        EventKind::AcCost1 => "AcCost1"@,
        EventKind::AcCost2 => "AcCost2"@,
        EventKind::SpLoss1 => "SpLoss1"@,
        EventKind::SpLoss2 => "SpLoss2"@,
    }
}

impl EventKind {
    /// The name of this event kind, as callgrind writes it.
    pub fn name(&self) -> (r: &'static str)
        ensures
            r@ == event_name(*self),
    {
        match self {
            EventKind::Ir => "Ir",
            EventKind::Dr => "Dr",
            EventKind::Dw => "Dw",
            EventKind::I1mr => "I1mr",
            EventKind::D1mr => "D1mr",
            EventKind::D1mw => "D1mw",
            EventKind::ILmr => "ILmr",
            EventKind::DLmr => "DLmr",
            EventKind::DLmw => "DLmw",
            EventKind::L1hits => "L1hits",
            EventKind::LLhits => "LLhits",
            EventKind::RamHits => "RamHits",
            EventKind::TotalRW => "TotalRW",
            EventKind::EstimatedCycles => "EstimatedCycles",
            EventKind::SysCount => "SysCount",
            EventKind::SysTime => "SysTime",
            EventKind::SysCpuTime => "SysCpuTime",
            EventKind::Ge => "Ge",
            EventKind::Bc => "Bc",
            EventKind::Bcm => "Bcm",
            EventKind::Bi => "Bi",
            EventKind::Bim => "Bim",
            EventKind::ILdmr => "ILdmr",
            EventKind::DLdmr => "DLdmr",
            EventKind::DLdmw => "DLdmw",
            EventKind::AcCost1 => "AcCost1",
            EventKind::AcCost2 => "AcCost2",
            EventKind::SpLoss1 => "SpLoss1",
            EventKind::SpLoss2 => "SpLoss2",
        }
    }
}

/// `x + y`, or `u64::MAX` where the sum does not fit.
pub open spec fn sat_add(x: u64, y: u64) -> u64 {
    if x + y > u64::MAX {
        u64::MAX
    } else {
        (x + y) as u64
    }
}

/// `x - y`, or `0` where `y > x`.
pub open spec fn sat_sub(x: u64, y: u64) -> u64 {
    if x < y {
        0
    } else {
        (x - y) as u64
    }
}

/// `x * y`, or `u64::MAX` where the product does not fit.
pub open spec fn sat_mul(x: u64, y: u64) -> u64 {
    if x * y > u64::MAX {
        u64::MAX
    } else {
        (x * y) as u64
    }
}

/// The sum of two metric maps: counts of an event present in both are added (saturating),
/// the others are kept.
pub open spec fn metrics_sum(a: Map<EventKind, u64>, b: Map<EventKind, u64>) -> Map<
    EventKind,
    u64,
> {
    merge_with(a, b, |x: u64, y: u64| sat_add(x, y))
}

/// The events that the cache summary is derived from, in the order in which they are looked up.
pub open spec fn cache_event_kinds() -> Seq<EventKind> {
    seq![
        EventKind::Ir,
        EventKind::Dr,
        EventKind::Dw,
        EventKind::I1mr,
        EventKind::D1mr,
        EventKind::D1mw,
        EventKind::ILmr,
        EventKind::DLmr,
        EventKind::DLmw,
    ]
}

/// `m` holds every event the cache summary is derived from.
pub open spec fn has_cache_events(m: Map<EventKind, u64>) -> bool {
    forall|i: int| 0 <= i < 9 ==> m.contains_key(#[trigger] cache_event_kinds()[i])
}

/// The first of the cache events, in lookup order, that `m` lacks.
pub open spec fn first_missing_cache_event(m: Map<EventKind, u64>) -> EventKind {
    if !m.contains_key(EventKind::Ir) {
        EventKind::Ir
    } else if !m.contains_key(EventKind::Dr) {
        EventKind::Dr
    } else if !m.contains_key(EventKind::Dw) {
        EventKind::Dw
    } else if !m.contains_key(EventKind::I1mr) {
        EventKind::I1mr
    } else if !m.contains_key(EventKind::D1mr) {
        EventKind::D1mr
    } else if !m.contains_key(EventKind::D1mw) {
        EventKind::D1mw
    } else if !m.contains_key(EventKind::ILmr) {
        EventKind::ILmr
    } else if !m.contains_key(EventKind::DLmr) {
        EventKind::DLmr
    } else {
        EventKind::DLmw
    }
}

/// Instruction and data accesses: `Ir + Dr + Dw`.
pub open spec fn total_rw(m: Map<EventKind, u64>) -> u64 {
    sat_add(sat_add(m[EventKind::Ir], m[EventKind::Dr]), m[EventKind::Dw])
}

/// Misses of the first-level caches: `I1mr + D1mr + D1mw`.
pub open spec fn l1_misses(m: Map<EventKind, u64>) -> u64 {
    sat_add(sat_add(m[EventKind::I1mr], m[EventKind::D1mr]), m[EventKind::D1mw])
}

/// Misses of the last-level cache, which are served from main memory: `ILmr + DLmr + DLmw`.
pub open spec fn ram_hits(m: Map<EventKind, u64>) -> u64 {
    sat_add(sat_add(m[EventKind::ILmr], m[EventKind::DLmr]), m[EventKind::DLmw])
}

/// Accesses served by the first-level caches.
pub open spec fn l1_hits(m: Map<EventKind, u64>) -> u64 {
    sat_sub(total_rw(m), l1_misses(m))
}

/// Accesses served by the last-level cache.
pub open spec fn ll_hits(m: Map<EventKind, u64>) -> u64 {
    sat_sub(l1_misses(m), ram_hits(m))
}

/// The estimate of cycles: `L1hits + 5 * LLhits + 35 * RamHits`.
pub open spec fn estimated_cycles(m: Map<EventKind, u64>) -> u64 {
    sat_add(sat_add(l1_hits(m), sat_mul(5, ll_hits(m))), sat_mul(35, ram_hits(m)))
}

/// `m` with the derived summary events set.
pub open spec fn with_summary(m: Map<EventKind, u64>) -> Map<EventKind, u64> {
    m.insert(EventKind::L1hits, l1_hits(m)).insert(EventKind::LLhits, ll_hits(m)).insert(
        EventKind::RamHits,
        ram_hits(m),
    ).insert(EventKind::TotalRW, total_rw(m)).insert(EventKind::EstimatedCycles, estimated_cycles(m))
}

fn saturating_times(x: u64, y: u64) -> (r: u64)
    requires
        x > 0,
    ensures
        r == sat_mul(x, y),
{
    if y > u64::MAX / x {
        assert(x * y > u64::MAX) by (nonlinear_arith)
            requires
                x > 0,
                y > u64::MAX / x,
        ;
        u64::MAX
    } else {
        assert(x * y <= u64::MAX) by (nonlinear_arith)
            requires
                x > 0,
                y <= u64::MAX / x,
        ;
        x * y
    }
}

/// The counts of the events of one function (or one call site), at most one per kind.
#[derive(Debug, Clone)]
pub struct Metrics {
    entries: Vec<(EventKind, u64)>,
}

impl View for Metrics {
    type V = Map<EventKind, u64>;

    closed spec fn view(&self) -> Map<EventKind, u64> {
        assoc_map(self.entries@)
    }
}

/// Adds the entry `(k, o)` of the second operand to a sum of metric maps.
proof fn lemma_metrics_sum_insert(a: Map<EventKind, u64>, b: Map<EventKind, u64>, k: EventKind, o: u64)
    requires
        !b.contains_key(k),
    ensures
        metrics_sum(a, b.insert(k, o)) == metrics_sum(a, b).insert(
            k,
            if a.contains_key(k) {
                sat_add(a[k], o)
            } else {
                o
            },
        ),
{
    assert(metrics_sum(a, b.insert(k, o)) =~= metrics_sum(a, b).insert(
        k,
        if a.contains_key(k) {
            sat_add(a[k], o)
        } else {
            o
        },
    ));
}

impl Metrics {
    /// No event kind is recorded twice.
    pub closed spec fn wf(&self) -> bool {
        keys_distinct(self.entries@)
    }

    /// Metrics without any event.
    pub fn new() -> (r: Self)
        ensures
            r.wf(),
            r@ == Map::<EventKind, u64>::empty(),
    {
        let r = Metrics { entries: Vec::new() };
        assert(r@ =~= Map::<EventKind, u64>::empty());
        r
    }

    /// A copy of these metrics.
    pub fn duplicate(&self) -> (r: Self)
        requires
            self.wf(),
        ensures
            r.wf(),
            r@ == self@,
    {
        let mut entries: Vec<(EventKind, u64)> = Vec::new();
        let mut i: usize = 0;
        while i < self.entries.len()
            invariant
                i <= self.entries.len(),
                entries@ == self.entries@.take(i as int),
            decreases self.entries.len() - i,
        {
            entries.push(self.entries[i]);
            i = i + 1;
            assert(entries@ =~= self.entries@.take(i as int));
        }
        assert(entries@ =~= self.entries@);
        Metrics { entries }
    }

    /// The number of event kinds held.
    pub fn len(&self) -> (n: usize)
        requires
            self.wf(),
        ensures
            n == self@.len(),
    {
        proof {
            lemma_assoc_dom(self.entries@);
        }
        self.entries.len()
    }

    fn index_of(&self, kind: EventKind) -> (r: Option<usize>)
        ensures
            match r {
                Some(i) => i < self.entries@.len() && self.entries@[i as int].0 == kind,
                None => !self@.contains_key(kind),
            },
    {
        let mut i: usize = 0;
        while i < self.entries.len()
            invariant
                i <= self.entries.len(),
                forall|j: int| 0 <= j < i ==> #[trigger] self.entries@[j].0 != kind,
            decreases self.entries.len() - i,
        {
            if self.entries[i].0 == kind {
                return Some(i);
            }
            i = i + 1;
        }
        proof {
            lemma_assoc_absent(self.entries@, kind);
        }
        None
    }

    /// The count of the event `kind`, if recorded.
    pub fn metric_by_kind(&self, kind: EventKind) -> (r: Option<u64>)
        requires
            self.wf(),
        ensures
            r == (if self@.contains_key(kind) {
                Some(self@[kind])
            } else {
                None
            }),
    {
        match self.index_of(kind) {
            Some(i) => {
                proof {
                    lemma_assoc_at(self.entries@, i as int);
                }
                Some(self.entries[i].1)
            },
            None => None,
        }
    }

    /// Whether no event kind is counted twice.
    pub fn check_wf(&self) -> (r: bool)
        ensures
            r == self.wf(),
    {
        let mut i: usize = 0;
        while i < self.entries.len()
            invariant
                i <= self.entries.len(),
                keys_distinct(self.entries@.take(i as int)),
            decreases self.entries.len() - i,
        {
            let mut j: usize = 0;
            while j < i
                invariant
                    i < self.entries.len(),
                    j <= i,
                    forall|x: int| 0 <= x < j ==> #[trigger] self.entries@[x].0 != self.entries@[i as int].0,
                decreases i - j,
            {
                if self.entries[j].0 == self.entries[i].0 {
                    return false;
                }
                j = j + 1;
            }
            proof {
                lemma_keys_distinct_step(self.entries@, i as int);
            }
            i = i + 1;
        }
        assert(self.entries@.take(self.entries@.len() as int) =~= self.entries@);
        true
    }

    /// Whether both hold the same counts of the same event kinds.
    pub fn same(&self, other: &Metrics) -> (r: bool)
        requires
            self.wf(),
            other.wf(),
        ensures
            r == (self@ == other@),
    {
        let mut i: usize = 0;
        while i < self.entries.len()
            invariant
                self.wf(),
                other.wf(),
                i <= self.entries.len(),
                forall|j: int|
                    0 <= j < i ==> other@.contains_key(#[trigger] self.entries@[j].0)
                        && other@[self.entries@[j].0] == self.entries@[j].1,
            decreases self.entries.len() - i,
        {
            let (k, v) = self.entries[i];
            proof {
                lemma_assoc_at(self.entries@, i as int);
            }
            match other.metric_by_kind(k) {
                Some(w) => {
                    if w != v {
                        return false;
                    }
                },
                None => {
                    return false;
                },
            }
            i = i + 1;
        }
        let mut j: usize = 0;
        while j < other.entries.len()
            invariant
                self.wf(),
                other.wf(),
                j <= other.entries.len(),
                forall|x: int|
                    0 <= x < self.entries@.len() ==> other@.contains_key(#[trigger] self.entries@[x].0)
                        && other@[self.entries@[x].0] == self.entries@[x].1,
                forall|x: int| 0 <= x < j ==> self@.contains_key(#[trigger] other.entries@[x].0),
            decreases other.entries.len() - j,
        {
            let (k, _) = other.entries[j];
            proof {
                lemma_assoc_at(other.entries@, j as int);
            }
            if self.metric_by_kind(k).is_none() {
                return false;
            }
            j = j + 1;
        }
        proof {
            lemma_assoc_same(self.entries@, other.entries@);
        }
        true
    }

    /// Sets the count of `kind` to `value`, replacing a previous count.
    pub fn insert(&mut self, kind: EventKind, value: u64)
        requires
            old(self).wf(),
        ensures
            final(self).wf(),
            final(self)@ == old(self)@.insert(kind, value),
    {
        match self.index_of(kind) {
            Some(i) => {
                proof {
                    lemma_assoc_set(self.entries@, i as int, value);
                }
                self.entries.set(i, (kind, value));
            },
            None => {
                proof {
                    lemma_assoc_push(self.entries@, kind, value);
                }
                self.entries.push((kind, value));
            },
        }
    }

    /// Adds the counts of `other` to these: counts of events present in both are added,
    /// saturating at `u64::MAX`, and events only in `other` are taken over.
    pub fn add(&mut self, other: &Metrics)
        requires
            old(self).wf(),
            other.wf(),
        ensures
            final(self).wf(),
            final(self)@ == metrics_sum(old(self)@, other@),
    {
        let ghost a = self@;
        let mut i: usize = 0;
        assert(metrics_sum(a, assoc_map(other.entries@.take(0))) =~= a);
        while i < other.entries.len()
            invariant
                i <= other.entries.len(),
                keys_distinct(other.entries@),
                self.wf(),
                self@ == metrics_sum(a, assoc_map(other.entries@.take(i as int))),
            decreases other.entries.len() - i,
        {
            let (k, o) = other.entries[i];
            let ghost t = other.entries@.take(i as int);
            proof {
                assert(keys_distinct(t));
                assert forall|j: int| 0 <= j < t.len() implies #[trigger] t[j].0 != k by {
                    assert(other.entries@[j].0 == t[j].0);
                }
                lemma_assoc_absent(t, k);
                lemma_assoc_push(t, k, o);
                assert(other.entries@.take(i + 1) =~= t.push((k, o)));
                lemma_metrics_sum_insert(a, assoc_map(t), k, o);
            }
            match self.metric_by_kind(k) {
                Some(v) => self.insert(k, v.saturating_add(o)),
                None => self.insert(k, o),
            }
            i = i + 1;
        }
        assert(other.entries@.take(other.entries@.len() as int) =~= other.entries@);
    }

    /// Whether every event that the cache summary is derived from is present.
    pub fn can_summarize(&self) -> (r: bool)
        requires
            self.wf(),
        ensures
            r == has_cache_events(self@),
    {
        let r = self.metric_by_kind(EventKind::Ir).is_some() && self.metric_by_kind(
            EventKind::Dr,
        ).is_some() && self.metric_by_kind(EventKind::Dw).is_some() && self.metric_by_kind(
            EventKind::I1mr,
        ).is_some() && self.metric_by_kind(EventKind::D1mr).is_some() && self.metric_by_kind(
            EventKind::D1mw,
        ).is_some() && self.metric_by_kind(EventKind::ILmr).is_some() && self.metric_by_kind(
            EventKind::DLmr,
        ).is_some() && self.metric_by_kind(EventKind::DLmw).is_some();
        proof {
            if !r {
                assert(!has_cache_events(self@) ) by {
                    let ks = cache_event_kinds();
                    assert(ks[0] == EventKind::Ir);
                    assert(ks[1] == EventKind::Dr);
                    assert(ks[2] == EventKind::Dw);
                    assert(ks[3] == EventKind::I1mr);
                    assert(ks[4] == EventKind::D1mr);
                    assert(ks[5] == EventKind::D1mw);
                    assert(ks[6] == EventKind::ILmr);
                    assert(ks[7] == EventKind::DLmr);
                    assert(ks[8] == EventKind::DLmw);
                }
            }
        }
        r
    }

    fn try_metric(&self, kind: EventKind) -> (r: Result<u64, EventKind>)
        requires
            self.wf(),
        ensures
            match r {
                Ok(v) => self@.contains_key(kind) && v == self@[kind],
                Err(k) => !self@.contains_key(kind) && k == kind,
            },
    {
        match self.metric_by_kind(kind) {
            Some(v) => Ok(v),
            None => Err(kind),
        }
    }

    /// Computes the summary events (`L1hits`, `LLhits`, `RamHits`, `TotalRW`,
    /// `EstimatedCycles`) from the cache simulation events and stores them, replacing earlier
    /// values. Fails with the first missing cache event, leaving the metrics unchanged.
    pub fn make_summary(&mut self) -> (r: Result<(), EventKind>)
        requires
            old(self).wf(),
        ensures
            final(self).wf(),
            r is Ok <==> has_cache_events(old(self)@),
            r is Ok ==> final(self)@ == with_summary(old(self)@),
            r matches Err(k) ==> k == first_missing_cache_event(old(self)@) && final(self)@ == old(
                self,
            )@,
    {
        let ghost m = self@;
        let ghost ks = cache_event_kinds();
        assert(ks[0] == EventKind::Ir && ks[1] == EventKind::Dr && ks[2] == EventKind::Dw
            && ks[3] == EventKind::I1mr && ks[4] == EventKind::D1mr && ks[5] == EventKind::D1mw
            && ks[6] == EventKind::ILmr && ks[7] == EventKind::DLmr && ks[8] == EventKind::DLmw);
        let ir = match self.try_metric(EventKind::Ir) { Ok(v) => v, Err(k) => return Err(k) };
        let dr = match self.try_metric(EventKind::Dr) { Ok(v) => v, Err(k) => return Err(k) };
        let dw = match self.try_metric(EventKind::Dw) { Ok(v) => v, Err(k) => return Err(k) };
        let i1mr = match self.try_metric(EventKind::I1mr) { Ok(v) => v, Err(k) => return Err(k) };
        let d1mr = match self.try_metric(EventKind::D1mr) { Ok(v) => v, Err(k) => return Err(k) };
        let d1mw = match self.try_metric(EventKind::D1mw) { Ok(v) => v, Err(k) => return Err(k) };
        let ilmr = match self.try_metric(EventKind::ILmr) { Ok(v) => v, Err(k) => return Err(k) };
        let dlmr = match self.try_metric(EventKind::DLmr) { Ok(v) => v, Err(k) => return Err(k) };
        let dlmw = match self.try_metric(EventKind::DLmw) { Ok(v) => v, Err(k) => return Err(k) };
        let total = ir.saturating_add(dr).saturating_add(dw);
        let l1_miss = i1mr.saturating_add(d1mr).saturating_add(d1mw);
        let ram = ilmr.saturating_add(dlmr).saturating_add(dlmw);
        let l1 = total.saturating_sub(l1_miss);
        let ll = l1_miss.saturating_sub(ram);
        let cycles = l1.saturating_add(saturating_times(5, ll)).saturating_add(
            saturating_times(35, ram),
        );
        self.insert(EventKind::L1hits, l1);
        self.insert(EventKind::LLhits, ll);
        self.insert(EventKind::RamHits, ram);
        self.insert(EventKind::TotalRW, total);
        self.insert(EventKind::EstimatedCycles, cycles);
        Ok(())
    }
}

/// Adding metrics does not depend on the order of the operands.
pub proof fn lemma_metrics_sum_commutative(a: Map<EventKind, u64>, b: Map<EventKind, u64>)
    ensures
        metrics_sum(a, b) == metrics_sum(b, a),
{
    assert(metrics_sum(a, b) =~= metrics_sum(b, a));
}

/// Adding metrics is associative.
pub proof fn lemma_metrics_sum_associative(
    a: Map<EventKind, u64>,
    b: Map<EventKind, u64>,
    c: Map<EventKind, u64>,
)
    ensures
        metrics_sum(metrics_sum(a, b), c) == metrics_sum(a, metrics_sum(b, c)),
{
    assert(metrics_sum(metrics_sum(a, b), c) =~= metrics_sum(a, metrics_sum(b, c)));
}

/// Adding empty metrics changes nothing.
pub proof fn lemma_metrics_sum_identity(a: Map<EventKind, u64>)
    ensures
        metrics_sum(a, Map::empty()) == a,
        metrics_sum(Map::empty(), a) == a,
{
    assert(metrics_sum(a, Map::empty()) =~= a);
    assert(metrics_sum(Map::empty(), a) =~= a);
}

/// Computing the summary again changes nothing: the summary events are derived from the cache
/// events only, which it leaves as they are.
pub proof fn lemma_with_summary_idempotent(m: Map<EventKind, u64>)
    ensures
        with_summary(with_summary(m)) == with_summary(m),
        has_cache_events(m) ==> has_cache_events(with_summary(m)),
{
    let s = with_summary(m);
    assert(s[EventKind::Ir] == m[EventKind::Ir]);
    assert(s[EventKind::Dr] == m[EventKind::Dr]);
    assert(s[EventKind::Dw] == m[EventKind::Dw]);
    assert(s[EventKind::I1mr] == m[EventKind::I1mr]);
    assert(s[EventKind::D1mr] == m[EventKind::D1mr]);
    assert(s[EventKind::D1mw] == m[EventKind::D1mw]);
    assert(s[EventKind::ILmr] == m[EventKind::ILmr]);
    assert(s[EventKind::DLmr] == m[EventKind::DLmr]);
    assert(s[EventKind::DLmw] == m[EventKind::DLmw]);
    assert(with_summary(s) =~= s);
    if has_cache_events(m) {
        assert forall|i: int| 0 <= i < 9 implies s.contains_key(#[trigger] cache_event_kinds()[i]) by {
            assert(m.contains_key(cache_event_kinds()[i]));
        }
    }
}

/// The cache summary, counted from the raw events: `TotalRW = Ir + Dr + Dw`,
/// `RamHits = ILmr + DLmr + DLmw`, `LLhits = (I1mr + D1mr + D1mw) - RamHits`,
/// `L1hits = TotalRW - (I1mr + D1mr + D1mw)` and
/// `EstimatedCycles = L1hits + 5 * LLhits + 35 * RamHits` (all saturating); every other
/// event keeps its count.
pub proof fn lemma_summary_counts(m: Map<EventKind, u64>)
    requires
        has_cache_events(m),
    ensures
        ({
            let s = with_summary(m);
            let misses = sat_add(
                sat_add(m[EventKind::I1mr], m[EventKind::D1mr]),
                m[EventKind::D1mw],
            );
            &&& s[EventKind::TotalRW] == sat_add(
                sat_add(m[EventKind::Ir], m[EventKind::Dr]),
                m[EventKind::Dw],
            )
            &&& s[EventKind::RamHits] == sat_add(
                sat_add(m[EventKind::ILmr], m[EventKind::DLmr]),
                m[EventKind::DLmw],
            )
            &&& s[EventKind::LLhits] == sat_sub(misses, s[EventKind::RamHits])
            &&& s[EventKind::L1hits] == sat_sub(s[EventKind::TotalRW], misses)
            &&& s[EventKind::EstimatedCycles] == sat_add(
                sat_add(s[EventKind::L1hits], sat_mul(5, s[EventKind::LLhits])),
                sat_mul(35, s[EventKind::RamHits]),
            )
            &&& forall|k: EventKind|
                k != EventKind::L1hits && k != EventKind::LLhits && k != EventKind::RamHits && k
                    != EventKind::TotalRW && k != EventKind::EstimatedCycles ==> (#[trigger] s.contains_key(k)
                    <==> m.contains_key(k)) && (m.contains_key(k) ==> s[k] == m[k])
        }),
{
}

/// Each last-level miss is one more access served from main memory: one more `ILmr`, `DLmr`
/// or `DLmw` (with counts far from saturation) is one more `RamHits`.
pub proof fn lemma_ram_hits_count_each_miss(m: Map<EventKind, u64>, k: EventKind)
    requires
        has_cache_events(m),
        k == EventKind::ILmr || k == EventKind::DLmr || k == EventKind::DLmw,
        m[EventKind::ILmr] < 0x1000_0000,
        m[EventKind::DLmr] < 0x1000_0000,
        m[EventKind::DLmw] < 0x1000_0000,
    ensures
        with_summary(m.insert(k, (m[k] + 1) as u64))[EventKind::RamHits] == with_summary(
            m,
        )[EventKind::RamHits] + 1,
{
    let m2 = m.insert(k, (m[k] + 1) as u64);
    assert(m2[EventKind::ILmr] + m2[EventKind::DLmr] + m2[EventKind::DLmw] == m[EventKind::ILmr]
        + m[EventKind::DLmr] + m[EventKind::DLmw] + 1);
}

/// Adding metrics counts each event: present in the sum when present in either operand, the
/// two counts added where both have it (capped at the largest `u64`), else the one count.
pub proof fn lemma_metrics_sum_counts(a: Map<EventKind, u64>, b: Map<EventKind, u64>, k: EventKind)
    ensures
        metrics_sum(a, b).contains_key(k) <==> a.contains_key(k) || b.contains_key(k),
        a.contains_key(k) && b.contains_key(k) ==> metrics_sum(a, b)[k] == if a[k] + b[k]
            > u64::MAX {
            u64::MAX as int
        } else {
            a[k] + b[k]
        },
        a.contains_key(k) && !b.contains_key(k) ==> metrics_sum(a, b)[k] == a[k],
        !a.contains_key(k) && b.contains_key(k) ==> metrics_sum(a, b)[k] == b[k],
{
}

} // verus!
