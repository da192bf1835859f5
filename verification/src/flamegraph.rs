//! The flamegraph map of a callgrind run: function costs, call costs and the roots of the
//! call graph, turned into lines of the stacks format.
use vstd::prelude::*;
use vstd::std_specs::cmp::PartialEqSpecImpl;
use crate::assoc::keys_distinct;
use crate::decimal::{push_char, push_decimal};
use crate::id::{Id, IdText, IdView, Rank};
use crate::metrics::{event_name, has_cache_events, EventKind, Metrics};
use crate::sorting::{lemma_insert_sorted, lemma_sorted_of, sorted_of, strictly_sorted};
use crate::stacks::{
    child_candidates, child_items, child_order, children, cost_total, emit_list, emit_node,
    graph_finite, graph_nodes, id_order, kid_texts, lemma_candidates_in_nodes, lemma_emit_list_end,
    lemma_emit_list_step, lemma_emit_node, lemma_nodes_finite,
    lemma_orders_strict_total, lemma_unvisited_insert, lemma_unvisited_union, lines_of,
    root_items, stacks, unvisited, GraphView,
};
use crate::tables::{
    callee_texts_record, callee_texts_union, callees_of, cost_table_sum, edge_table_record, edge_table_sum, summarized_prefix, CostTable, EdgeTable, IdSet,
};

verus! {

/// Why a flamegraph operation failed.
#[derive(Debug, PartialEq, Eq, Structural, Clone, Copy)]
pub enum FlamegraphError {
    /// The summary events could not be computed: the event is missing.
    SummaryFailed(EventKind),
    /// A function has no count of the event that the stacks were asked for.
    MissingEvent(EventKind),
}

/// The text of a missing event: `Missing event type '<name>'`.
pub open spec fn missing_event_text(k: EventKind) -> Seq<char> {
    "Missing event type '"@ + event_name(k) + "'"@
}

/// The message of an error.
pub open spec fn error_message(e: FlamegraphError) -> Seq<char> {
    match e {
        FlamegraphError::SummaryFailed(k) => "Failed calculating summary events: "@
            + missing_event_text(k),
        FlamegraphError::MissingEvent(k) => "Failed creating flamegraph stack: "@
            + missing_event_text(k),
    }
}

impl FlamegraphError {
    /// The message of this error.
    pub fn message(&self) -> (r: String)
        ensures
            r@ == error_message(*self),
    {
        let mut r = String::new();
        let k = match self {
            FlamegraphError::SummaryFailed(k) => {
                r.append("Failed calculating summary events: ");
                *k
            },
            FlamegraphError::MissingEvent(k) => {
                r.append("Failed creating flamegraph stack: ");
                *k
            },
        };
        r.append("Missing event type '");
        r.append(k.name());
        r.append("'");
        assert(r@ =~= error_message(*self));
        r
    }
}

/// The costs of the functions of a callgrind run.
#[derive(Debug, Clone)]
pub struct CallgrindMap {
    /// The inclusive metrics of each function.
    pub map: CostTable,
    /// The function that the run was restricted to, if any.
    pub sentinel_key: Option<Id>,
}

/// The costs of functions and calls of a callgrind run, with the roots of its call graph.
#[derive(Debug, Clone)]
pub struct FlamegraphMap {
    roots: Vec<Id>,
    costs: CallgrindMap,
    edges: EdgeTable,
}

/// The abstract values of a sequence of identifiers.
pub open spec fn id_views(s: Seq<Id>) -> Seq<IdView> {
    s.map_values(|x: Id| x@)
}

/// A sequence of identifiers as written.
pub open spec fn id_texts(s: Seq<Id>) -> Seq<IdText> {
    s.map_values(|x: Id| x.text())
}

/// The abstract values of a sequence of strings.
pub open spec fn string_views(s: Seq<String>) -> Seq<Seq<char>> {
    s.map_values(|x: String| x@)
}

/// The abstract values of children with their costs.
pub open spec fn kid_views(s: Seq<(Id, u64)>) -> Seq<(IdView, u64)> {
    s.map_values(|c: (Id, u64)| (c.0@, c.1))
}

impl View for FlamegraphMap {
    type V = GraphView;

    closed spec fn view(&self) -> GraphView {
        GraphView {
            roots: id_views(self.roots@),
            root_texts: id_texts(self.roots@),
            costs: self.costs.map@,
            edges: self.edges@,
            callee_texts: self.edges.callee_texts(),
        }
    }
}

/// The children of `id` reached among the first `i` callee entries `pairs`.
pub open spec fn partial_candidates(
    pairs: Seq<(IdView, Map<EventKind, u64>)>,
    i: int,
    kind: EventKind,
    visited: Set<IdView>,
) -> Set<(IdView, u64)> {
    Set::new(
        |p: (IdView, u64)|
            exists|j: int|
                0 <= j < i && #[trigger] pairs[j].0 == p.0 && !visited.contains(p.0)
                    && pairs[j].1.contains_key(kind) && p.1 == pairs[j].1[kind],
    )
}

fn child_precedes(a: &Id, a_cost: u64, b: &Id, b_cost: u64) -> (r: bool)
    ensures
        r == child_order()((a@, a_cost), (b@, b_cost)),
{
    if a_cost != b_cost {
        a_cost > b_cost
    } else {
        a.compare(b) == Rank::Less
    }
}

/// Inserts a child at the place that keeps the children in `child_order`.
fn insert_child(out: &mut Vec<(Id, u64)>, id: Id, cost: u64)
    requires
        strictly_sorted(kid_views(old(out)@), child_order()),
        forall|k: int| 0 <= k < old(out)@.len() ==> (#[trigger] old(out)@[k]).0@ != id@,
    ensures
        strictly_sorted(kid_views(final(out)@), child_order()),
        kid_views(final(out)@).to_set() == kid_views(old(out)@).to_set().insert((id@, cost)),
        exists|p: int| 0 <= p <= old(out)@.len() && final(out)@ == old(out)@.insert(p, (id, cost)),
{
    proof {
        lemma_orders_strict_total();
    }
    let mut p: usize = 0;
    while p < out.len()
        invariant
            p <= out.len(),
            out@ == old(out)@,
            strictly_sorted(kid_views(out@), child_order()),
            forall|k: int| 0 <= k < out@.len() ==> (#[trigger] out@[k]).0@ != id@,
            forall|k: int| 0 <= k < p ==> child_order()(#[trigger] kid_views(out@)[k], (id@, cost)),
        ensures
            p <= out.len(),
            out@ == old(out)@,
            forall|k: int| 0 <= k < p ==> child_order()(#[trigger] kid_views(out@)[k], (id@, cost)),
            p < out.len() ==> child_order()((id@, cost), kid_views(out@)[p as int]),
        decreases out.len() - p,
    {
        if child_precedes(&id, cost, &out[p].0, out[p].1) {
            break;
        }
        proof {
            assert(kid_views(out@)[p as int] == (out@[p as int].0@, out@[p as int].1));
            assert(kid_views(out@)[p as int] != (id@, cost));
            lemma_orders_strict_total();
            assert(child_order()(kid_views(out@)[p as int], (id@, cost)) || child_order()(
                (id@, cost),
                kid_views(out@)[p as int],
            ));
        }
        p = p + 1;
    }
    let ghost s = kid_views(out@);
    proof {
        lemma_insert_sorted(s, (id@, cost), p as int, child_order());
    }
    let ghost before = out@;
    out.insert(p, (id, cost));
    assert(kid_views(out@) =~= s.insert(p as int, (id@, cost)));
    assert(out@ == before.insert(p as int, (id, cost)));
}

fn sum_costs(kids: &Vec<(Id, u64)>) -> (r: u64)
    ensures
        r == cost_total(kid_views(kids@)),
{
    let mut total: u64 = 0;
    let mut i: usize = 0;
    while i < kids.len()
        invariant
            i <= kids.len(),
            total == cost_total(kid_views(kids@).take(i as int)),
        decreases kids.len() - i,
    {
        assert(kid_views(kids@).take(i + 1).drop_last() =~= kid_views(kids@).take(i as int));
        total = total.saturating_add(kids[i].1);
        i = i + 1;
    }
    assert(kid_views(kids@).take(kids@.len() as int) =~= kid_views(kids@));
    total
}

impl FlamegraphMap {
    /// The tables are well formed.
    pub closed spec fn wf(&self) -> bool {
        &&& self.costs.map.wf()
        &&& self.edges.wf()
    }

    /// The function costs in table order.
    pub closed spec fn cost_entries(&self) -> Seq<(IdView, Map<EventKind, u64>)> {
        self.costs.map.pairs()
    }

    /// The function that the run was restricted to, if any.
    pub closed spec fn sentinel(&self) -> Option<IdView> {
        match self.costs.sentinel_key {
            Some(k) => Some(k@),
            None => None,
        }
    }

    proof fn lemma_wf(&self)
        requires
            self.wf(),
        ensures
            graph_finite(self@),
            self@.costs == crate::assoc::assoc_map(self.cost_entries()),
            keys_distinct(self.cost_entries()),
    {
        self.edges.lemma_wf();
        self.costs.map.lemma_wf();
    }

    /// Whether no function has a cost.
    pub fn is_empty(&self) -> (r: bool)
        requires
            self.wf(),
        ensures
            r == (self@.costs.dom().len() == 0),
    {
        self.costs.map.is_empty()
    }

    /// The children that the walk descends into from `id`, given the visited functions.
    fn children_of(&self, id: &Id, kind: EventKind, visited: &IdSet) -> (r: Vec<(Id, u64)>)
        requires
            self.wf(),
        ensures
            kid_views(r@) == children(self@, id@, kind, visited@),
            kid_views(r@).to_set() == child_candidates(self@, id@, kind, visited@),
            forall|k: int|
                0 <= k < r@.len() ==> (#[trigger] r@[k]).0.text() == self@.callee_texts[id@][r@[k].0@],
    {
        proof {
            lemma_orders_strict_total();
        }
        let mut out: Vec<(Id, u64)> = Vec::new();
        match self.edges.get(id) {
            None => {
                assert(kid_views(out@).to_set() =~= child_candidates(self@, id@, kind, visited@));
            },
            Some(t) => {
                let ghost pairs = t.pairs();
                proof {
                    t.lemma_wf();
                }
                let mut i: usize = 0;
                assert(kid_views(out@).to_set() =~= partial_candidates(pairs, 0, kind, visited@));
                while i < t.len()
                    invariant
                        t.wf(),
                        pairs == t.pairs(),
                        keys_distinct(pairs),
                        i <= pairs.len(),
                        strictly_sorted(kid_views(out@), child_order()),
                        kid_views(out@).to_set() == partial_candidates(pairs, i as int, kind, visited@),
                        self.edges.callee_texts()[id@] == t.texts(),
                        forall|k: int|
                            0 <= k < out@.len() ==> (#[trigger] out@[k]).0.text() == t.texts()[out@[k].0@],
                    decreases pairs.len() - i,
                {
                    let (callee, m) = t.entry(i);
                    let ghost before = kid_views(out@);
                    let ghost old_out = out@;
                    if !visited.contains(callee) {
                        match m.metric_by_kind(kind) {
                            Some(c) => {
                                proof {
                                    assert forall|k: int| 0 <= k < out@.len() implies (
                                    #[trigger] out@[k]).0@ != callee@ by {
                                        assert(before[k] == (out@[k].0@, out@[k].1));
                                        assert(before.to_set().contains(before[k]));
                                        let j = choose|j: int|
                                            0 <= j < i && #[trigger] pairs[j].0 == before[k].0
                                                && !visited@.contains(before[k].0)
                                                && pairs[j].1.contains_key(kind) && before[k].1
                                                == pairs[j].1[kind];
                                        assert(pairs[j].0 != pairs[i as int].0);
                                    }
                                }
                                let d = callee.duplicate();
                                insert_child(&mut out, d, c);
                                proof {
                                    let p = choose|p: int| 0 <= p <= old_out.len() && out@ == old_out.insert(p, (d, c));
                                    assert forall|k: int| 0 <= k < out@.len() implies (#[trigger] out@[k]).0.text() == t.texts()[out@[k].0@] by {
                                        if k < p {
                                            assert(out@[k] == old_out[k]);
                                        } else if k > p {
                                            assert(out@[k] == old_out[k - 1]);
                                        }
                                    }
                                }
                            },
                            None => {},
                        }
                    }
                    proof {
                        assert(kid_views(out@).to_set() =~= partial_candidates(
                            pairs,
                            i + 1,
                            kind,
                            visited@,
                        )) by {
                            assert forall|p: (IdView, u64)| partial_candidates(pairs, i + 1, kind, visited@).contains(p)
                                implies kid_views(out@).to_set().contains(p) by {
                                let j = choose|j: int|
                                    0 <= j < i + 1 && #[trigger] pairs[j].0 == p.0 && !visited@.contains(p.0)
                                        && pairs[j].1.contains_key(kind) && p.1 == pairs[j].1[kind];
                                if j < i {
                                    assert(partial_candidates(pairs, i as int, kind, visited@).contains(p));
                                }
                            }
                            assert forall|p: (IdView, u64)| kid_views(out@).to_set().contains(p)
                                implies partial_candidates(pairs, i + 1, kind, visited@).contains(p) by {
                                if before.to_set().contains(p) {
                                    assert(partial_candidates(pairs, i as int, kind, visited@).contains(p));
                                    let j = choose|j: int|
                                        0 <= j < i && #[trigger] pairs[j].0 == p.0 && !visited@.contains(p.0)
                                            && pairs[j].1.contains_key(kind) && p.1 == pairs[j].1[kind];
                                    assert(0 <= j < i + 1);
                                } else {
                                    assert(pairs[i as int].0 == p.0);
                                }
                            }
                        }
                    }
                    i = i + 1;
                }
                proof {
                    assert(kid_views(out@).to_set() =~= child_candidates(self@, id@, kind, visited@)) by {
                        assert(callees_of(self@.edges, id@) == t@);
                        assert forall|p: (IdView, u64)| child_candidates(self@, id@, kind, visited@).contains(p)
                            implies partial_candidates(pairs, pairs.len() as int, kind, visited@).contains(p) by {
                            let j = choose|j: int| 0 <= j < pairs.len() && #[trigger] pairs[j].0 == p.0;
                            assert(t@.contains_key(pairs[j].0) && t@[pairs[j].0] == pairs[j].1);
                        }
                        assert forall|p: (IdView, u64)| partial_candidates(pairs, pairs.len() as int, kind, visited@).contains(p)
                            implies child_candidates(self@, id@, kind, visited@).contains(p) by {
                            let j = choose|j: int|
                                0 <= j < pairs.len() && #[trigger] pairs[j].0 == p.0 && !visited@.contains(p.0)
                                    && pairs[j].1.contains_key(kind) && p.1 == pairs[j].1[kind];
                            assert(t@.contains_key(pairs[j].0) && t@[pairs[j].0] == pairs[j].1);
                        }
                    }
                }
            },
        }
        proof {
            lemma_sorted_of(
                kid_views(out@),
                child_candidates(self@, id@, kind, visited@),
                child_order(),
            );
        }
        out
    }

    /// Walks the graph from `id`, reached below the stack `parent` by a call that cost
    /// `edge` (none at a root): reports `id` unless it was visited, then its children. A
    /// function that the graph does not mention is reported with no children.
    fn dfs_emit(
        &self,
        id: &Id,
        parent: &String,
        kind: EventKind,
        stacks: &mut Vec<String>,
        edge: Option<u64>,
        visited: &mut IdSet,
    )
        requires
            self.wf(),
        ensures
            string_views(final(stacks)@) == string_views(old(stacks)@) + lines_of(
                emit_node(self@, kind, id@, id.text(), parent@, edge, old(visited)@).0,
            ),
            final(visited)@ == emit_node(self@, kind, id@, id.text(), parent@, edge, old(visited)@).1,
        decreases unvisited(self@, old(visited)@),
    {
        let ghost g = self@;
        let ghost v0 = visited@;
        proof {
            self.lemma_wf();
            lemma_nodes_finite(g);
        }
        if !visited.insert(id) {
            assert(string_views(stacks@) =~= string_views(old(stacks)@) + lines_of(
                Seq::<(IdView, Seq<char>)>::empty(),
            ));
            return;
        }
        let ghost v1 = visited@;
        let kids = self.children_of(id, kind, visited);
        proof {
            if !graph_nodes(g).contains(id@) {
                assert(child_candidates(g, id@, kind, v1) =~= Set::<(IdView, u64)>::empty()) by {
                    assert(!g.edges.contains_key(id@));
                }
                if kids@.len() > 0 {
                    assert(kid_views(kids@).to_set().contains(kid_views(kids@)[0]));
                }
            }
        }
        let total = sum_costs(&kids);
        let inclusive = match edge {
            Some(c) => c,
            None => match self.costs.map.get(id) {
                Some(m) => match m.metric_by_kind(kind) {
                    Some(c) => c,
                    None => 0,
                },
                None => 0,
            },
        };
        let self_cost = if inclusive > total {
            inclusive - total
        } else {
            0
        };
        let mut current = String::new();
        if parent.as_str().is_empty() {
            id.push_label(&mut current);
        } else {
            current.append(parent.as_str());
            push_char(&mut current, ';');
            id.push_label(&mut current);
        }
        let mut line = current.clone();
        push_char(&mut line, ' ');
        push_decimal(&mut line, self_cost);
        stacks.push(line);
        let ghost items = child_items(kid_views(kids@));
        let ghost texts = kid_texts(g, id@, kid_views(kids@));
        let ghost full = emit_list(g, kind, items, texts, 0, current@, v1);
        let ghost start = string_views(stacks@);
        let ghost mut acc: Seq<(IdView, Seq<char>)> = Seq::empty();
        proof {
            if graph_nodes(g).contains(id@) {
                lemma_unvisited_insert(g, v0, id@);
            }
            assert(inclusive == crate::stacks::inclusive_cost(g, id@, kind, edge));
            assert(self_cost == crate::metrics::sat_sub(inclusive, total));
            assert(current@ == crate::stacks::stack_of(parent@, id.text()));
            assert(line@ == crate::stacks::stack_line(current@, self_cost));
            assert(string_views(stacks@) =~= string_views(old(stacks)@).push(line@));
            assert(acc + full.0 =~= full.0);
        }
        let mut j: usize = 0;
        while j < kids.len()
            invariant
                self.wf(),
                g == self@,
                graph_finite(g),
                graph_nodes(g).finite(),
                j <= kids.len(),
                items == child_items(kid_views(kids@)),
                texts == kid_texts(g, id@, kid_views(kids@)),
                items.len() == kids@.len(),
                forall|k: int|
                    0 <= k < kids@.len() ==> (#[trigger] kids@[k]).0.text() == g.callee_texts[id@][kids@[k].0@],
                kid_views(kids@).to_set() == child_candidates(g, id@, kind, v1),
                full == emit_list(g, kind, items, texts, 0, current@, v1),
                acc + emit_list(g, kind, items, texts, j as int, current@, visited@).0 == full.0,
                emit_list(g, kind, items, texts, j as int, current@, visited@).1 == full.1,
                string_views(stacks@) == start + lines_of(acc),
                v1.subset_of(visited@),
                !graph_nodes(g).contains(id@) ==> kids@.len() == 0,
                !v0.contains(id@),
                v1 == v0.insert(id@),
                graph_nodes(g).contains(id@) ==> unvisited(g, v1) < unvisited(g, v0),
                v0 == old(visited)@,
            decreases kids.len() - j,
        {
            let ghost vj = visited@;
            let ghost sj = string_views(stacks@);
            proof {
                lemma_emit_list_step(g, kind, items, texts, j as int, current@, vj);
                assert(kid_views(kids@).to_set().contains(kid_views(kids@)[j as int]));
                lemma_candidates_in_nodes(g, id@, kind, v1, kid_views(kids@)[j as int]);
                assert(items[j as int] == (kids@[j as int].0@, Some(kids@[j as int].1)));
                assert(texts[j as int] == kids@[j as int].0.text());
                lemma_unvisited_union(g, v1, vj);
                assert(v1.union(vj) =~= vj);
            }
            self.dfs_emit(&kids[j].0, &current, kind, stacks, Some(kids[j].1), visited);
            proof {
                let a = emit_node(g, kind, items[j as int].0, texts[j as int], current@, items[j as int].1, vj);
                lemma_emit_node(g, kind, items[j as int].0, texts[j as int], current@, items[j as int].1, vj);
                assert(lines_of(acc + a.0) =~= lines_of(acc) + lines_of(a.0));
                assert(acc + a.0 + emit_list(g, kind, items, texts, j + 1, current@, visited@).0 =~= acc + (a.0
                    + emit_list(g, kind, items, texts, j + 1, current@, visited@).0));
                acc = acc + a.0;
            }
            j = j + 1;
        }
        proof {
            lemma_emit_list_end(g, kind, items, texts, current@, visited@);
            assert(acc =~= full.0);
            assert(lines_of(seq![(id@, line@)] + full.0) =~= seq![line@] + lines_of(full.0));
        }
    }

    /// The costs are the entries of the cost table.
    pub proof fn lemma_costs_are_entries(&self)
        requires
            self.wf(),
        ensures
            self@.costs == crate::assoc::assoc_map(self.cost_entries()),
            keys_distinct(self.cost_entries()),
    {
        self.lemma_wf();
    }

    /// The lines of the stacks format for the event `event_kind`: one line per function
    /// reached from the roots, each function reported once, on the first path that reaches it.
    /// Fails if some function has no count of `event_kind`; gives no line where no function
    /// has a cost.
    pub fn to_stack_format(&self, event_kind: &EventKind) -> (r: Result<
        Vec<String>,
        FlamegraphError,
    >)
        requires
            self.wf(),
        ensures
            self@.costs.dom().len() == 0 ==> (r matches Ok(v) && v@.len() == 0),
            r is Err <==> self@.costs.dom().len() > 0 && exists|id: IdView|
                #[trigger] self@.costs.contains_key(id) && !self@.costs[id].contains_key(
                    *event_kind,
                ),
            r matches Err(e) ==> e == FlamegraphError::MissingEvent(*event_kind),
            self@.costs.dom().len() > 0 ==> (r matches Ok(v) ==> string_views(v@) == stacks(
                self@,
                *event_kind,
            )),
    {
        let kind = *event_kind;
        let ghost g = self@;
        proof {
            self.lemma_wf();
            self.costs.map.lemma_wf();
            lemma_nodes_finite(g);
        }
        if self.costs.map.is_empty() {
            return Ok(Vec::new());
        }
        let mut i: usize = 0;
        while i < self.costs.map.len()
            invariant
                self.wf(),
                g == self@,
                i <= self.costs.map.pairs().len(),
                kind == *event_kind,
                self@.costs.dom().len() > 0,
                forall|j: int| 0 <= j < i ==> (#[trigger] self.costs.map.pairs()[j]).1.contains_key(kind),
            decreases self.costs.map.pairs().len() - i,
        {
            let (_, m) = self.costs.map.entry(i);
            if m.metric_by_kind(kind).is_none() {
                proof {
                    self.costs.map.lemma_wf();
                    let id = self.costs.map.pairs()[i as int].0;
                    assert(self@.costs.contains_key(id) && !self@.costs[id].contains_key(kind));
                }
                return Err(FlamegraphError::MissingEvent(kind));
            }
            i = i + 1;
        }
        proof {
            self.costs.map.lemma_wf();
            assert forall|id: IdView| #[trigger] self@.costs.contains_key(id) implies self@.costs[id].contains_key(kind) by {
                let j = choose|j: int| 0 <= j < self.costs.map.pairs().len() && #[trigger] self.costs.map.pairs()[j].0 == id;
                assert(self.costs.map.pairs()[j].1.contains_key(kind));
            }
        }
        let mut out: Vec<String> = Vec::new();
        let mut visited = IdSet::new();
        let empty = String::new();
        let ghost items = root_items(g.roots);
        let ghost texts = g.root_texts;
        let ghost full = emit_list(g, kind, items, texts, 0, empty@, Set::empty());
        let ghost mut acc: Seq<(IdView, Seq<char>)> = Seq::empty();
        assert(acc + full.0 =~= full.0);
        assert(string_views(out@) =~= lines_of(acc));
        let mut j: usize = 0;
        while j < self.roots.len()
            invariant
                self.wf(),
                g == self@,
                graph_finite(g),
                j <= self.roots.len(),
                kind == *event_kind,
                items == root_items(g.roots),
                texts == g.root_texts,
                items.len() == self.roots@.len(),
                g.roots == id_views(self.roots@),
                empty@ == Seq::<char>::empty(),
                full == emit_list(g, kind, items, texts, 0, empty@, Set::empty()),
                acc + emit_list(g, kind, items, texts, j as int, empty@, visited@).0 == full.0,
                emit_list(g, kind, items, texts, j as int, empty@, visited@).1 == full.1,
                string_views(out@) == lines_of(acc),
            decreases self.roots.len() - j,
        {
            let ghost vj = visited@;
            proof {
                lemma_emit_list_step(g, kind, items, texts, j as int, empty@, vj);
                assert(items[j as int] == (self.roots@[j as int]@, None::<u64>));
                assert(g.roots[j as int] == self.roots@[j as int]@);
                assert(texts[j as int] == self.roots@[j as int].text());
                assert(g.roots.to_set().contains(g.roots[j as int]));
            }
            self.dfs_emit(&self.roots[j], &empty, kind, &mut out, None, &mut visited);
            proof {
                let a = emit_node(g, kind, items[j as int].0, texts[j as int], empty@, items[j as int].1, vj);
                assert(lines_of(acc + a.0) =~= lines_of(acc) + lines_of(a.0));
                assert(acc + a.0 + emit_list(g, kind, items, texts, j + 1, empty@, visited@).0 =~= acc + (a.0
                    + emit_list(g, kind, items, texts, j + 1, empty@, visited@).0));
                acc = acc + a.0;
            }
            j = j + 1;
        }
        proof {
            lemma_emit_list_end(g, kind, items, texts, empty@, visited@);
            assert(acc =~= full.0);
        }
        Ok(out)
    }

    /// Adds the costs of functions and calls of `other` to these. The roots stay as they are.
    pub fn add(&mut self, other: &Self)
        requires
            old(self).wf(),
            other.wf(),
        ensures
            final(self).wf(),
            final(self)@.roots == old(self)@.roots,
            final(self)@.costs == cost_table_sum(old(self)@.costs, other@.costs),
            final(self)@.edges == edge_table_sum(old(self)@.edges, other@.edges),
            final(self).sentinel() == old(self).sentinel(),
            final(self)@.root_texts == old(self)@.root_texts,
            final(self)@.callee_texts == callee_texts_union(
                old(self)@.callee_texts,
                other@.callee_texts,
            ),
    {
        self.costs.map.merge(&other.costs.map);
        self.edges.merge(&other.edges);
    }

    /// Computes the summary events of every function in place. Where the first function (in
    /// table order) lacks a cache event, nothing is done: the costs then come from a run
    /// without cache simulation. Otherwise every function is summarized in table order, and
    /// the first that lacks a cache event stops it with an error.
    pub fn make_summary(&mut self) -> (r: Result<(), FlamegraphError>)
        requires
            old(self).wf(),
        ensures
            final(self).wf(),
            final(self)@.roots == old(self)@.roots,
            final(self)@.edges == old(self)@.edges,
            final(self).sentinel() == old(self).sentinel(),
            final(self)@.root_texts == old(self)@.root_texts,
            final(self)@.callee_texts == old(self)@.callee_texts,
            ({
                let e = old(self).cost_entries();
                &&& (e.len() == 0 || !has_cache_events(e[0].1)) ==> r is Ok
                    && final(self).cost_entries() == e
                &&& (e.len() > 0 && has_cache_events(e[0].1)) ==> {
                    &&& r is Ok <==> forall|i: int|
                        0 <= i < e.len() ==> has_cache_events(#[trigger] e[i].1)
                    &&& r is Ok ==> final(self).cost_entries() == summarized_prefix(
                        e,
                        e.len() as int,
                    )
                    &&& r matches Err(err) ==> exists|j: int|
                        0 < j < e.len() && !has_cache_events(e[j].1) && (forall|i: int|
                            0 <= i < j ==> has_cache_events(#[trigger] e[i].1)) && err
                            == FlamegraphError::SummaryFailed(
                            crate::metrics::first_missing_cache_event(e[j].1),
                        ) && final(self).cost_entries() == summarized_prefix(e, j)
                }
            }),
    {
        if self.costs.map.len() == 0 {
            return Ok(());
        }
        let (_, first) = self.costs.map.entry(0);
        if !first.can_summarize() {
            return Ok(());
        }
        match self.costs.map.summarize_all() {
            Ok(()) => Ok(()),
            Err(k) => {
                proof {
                    let e = old(self).cost_entries();
                    let j = choose|j: int|
                        0 <= j < e.len() && !has_cache_events(e[j].1) && (forall|i: int|
                            0 <= i < j ==> has_cache_events(#[trigger] e[i].1)) && k
                            == crate::metrics::first_missing_cache_event(e[j].1)
                            && self.cost_entries() == summarized_prefix(e, j);
                    assert(j > 0);
                }
                Err(FlamegraphError::SummaryFailed(k))
            },
        }
    }
}

impl FlamegraphMap {
    /// A copy of this map: the same roots, costs, calls and sentinel, written the same way.
    pub fn duplicate(&self) -> (r: Self)
        requires
            self.wf(),
        ensures
            r.wf(),
            r@ == self@,
            r.sentinel() == self.sentinel(),
    {
        let mut roots: Vec<Id> = Vec::new();
        let mut i: usize = 0;
        while i < self.roots.len()
            invariant
                i <= self.roots.len(),
                roots@.len() == i,
                forall|j: int|
                    0 <= j < i ==> (#[trigger] roots@[j])@ == self.roots@[j]@ && roots@[j].text()
                        == self.roots@[j].text(),
            decreases self.roots.len() - i,
        {
            roots.push(self.roots[i].duplicate());
            i = i + 1;
        }
        assert(id_views(roots@) =~= id_views(self.roots@));
        assert(id_texts(roots@) =~= id_texts(self.roots@));
        let sentinel_key = match &self.costs.sentinel_key {
            Some(k) => Some(k.duplicate()),
            None => None,
        };
        let mut edges = EdgeTable::new();
        edges.merge(&self.edges);
        proof {
            crate::assoc::lemma_merge_with_empty(
                self.edges@,
                |x: Map<IdView, Map<EventKind, u64>>, y: Map<IdView, Map<EventKind, u64>>|
                    cost_table_sum(x, y),
            );
            crate::assoc::lemma_merge_with_empty(
                self.edges.callee_texts(),
                |x: Map<IdView, IdText>, y: Map<IdView, IdText>| crate::tables::texts_union(x, y),
            );
        }
        FlamegraphMap {
            roots,
            costs: CallgrindMap { map: self.costs.map.duplicate(), sentinel_key },
            edges,
        }
    }

    /// Whether the tables are well formed.
    fn check_wf(&self) -> (r: bool)
        ensures
            r == self.wf(),
    {
        self.costs.map.check_wf() && self.edges.check_wf()
    }

    /// Whether both maps have the same roots in the same order, the same function and call
    /// costs, and the same sentinel.
    fn same(&self, other: &FlamegraphMap) -> (r: bool)
        requires
            self.wf(),
            other.wf(),
        ensures
            r == (same_content(self@, other@) && self.sentinel() == other.sentinel()),
    {
        if self.roots.len() != other.roots.len() {
            assert(id_views(self.roots@).len() != id_views(other.roots@).len());
            return false;
        }
        let mut i: usize = 0;
        while i < self.roots.len()
            invariant
                i <= self.roots.len(),
                self.roots.len() == other.roots.len(),
                forall|j: int| 0 <= j < i ==> (#[trigger] self.roots@[j])@ == other.roots@[j]@,
            decreases self.roots.len() - i,
        {
            if !self.roots[i].same(&other.roots[i]) {
                assert(id_views(self.roots@)[i as int] != id_views(other.roots@)[i as int]);
                return false;
            }
            i = i + 1;
        }
        assert(id_views(self.roots@) =~= id_views(other.roots@));
        let same_sentinel = match (&self.costs.sentinel_key, &other.costs.sentinel_key) {
            (Some(a), Some(b)) => a.same(b),
            (None, None) => true,
            _ => false,
        };
        same_sentinel && self.costs.map.same(&other.costs.map) && self.edges.same(&other.edges)
    }
}

/// Two graphs with the same roots, function costs and call costs; how their functions are
/// written does not matter.
pub open spec fn same_content(a: GraphView, b: GraphView) -> bool {
    a.roots == b.roots && a.costs == b.costs && a.edges == b.edges
}

impl PartialEq for FlamegraphMap {
    /// Whether both maps are well formed and hold the same roots, costs, calls and sentinel,
    /// however their functions are written.
    fn eq(&self, other: &Self) -> (r: bool) {
        self.check_wf() && other.check_wf() && self.same(other)
    }
}

impl PartialEqSpecImpl for FlamegraphMap {
    open spec fn obeys_eq_spec() -> bool {
        true
    }

    open spec fn eq_spec(&self, other: &Self) -> bool {
        self.wf() && other.wf() && same_content(self@, other@) && self.sentinel() == other.sentinel()
    }
}

impl Eq for FlamegraphMap {

}

impl Default for FlamegraphMap {
    /// A map without roots, costs or calls.
    fn default() -> (r: Self)
        ensures
            r.wf(),
            r@.roots == Seq::<IdView>::empty(),
            r@.costs == Map::<IdView, Map<EventKind, u64>>::empty(),
            r@.edges == Map::<IdView, Map<IdView, Map<EventKind, u64>>>::empty(),
            r.sentinel() == None::<IdView>,
            r@.root_texts == Seq::<IdText>::empty(),
            r@.callee_texts == Map::<IdView, Map<IdView, IdText>>::empty(),
    {
        let r = FlamegraphMap {
            roots: Vec::new(),
            costs: CallgrindMap { map: CostTable::new(), sentinel_key: None },
            edges: EdgeTable::new(),
        };
        assert(id_views(r.roots@) =~= Seq::<IdView>::empty());
        assert(id_texts(r.roots@) =~= Seq::<IdText>::empty());
        r
    }
}

/// The name of the function that a callgrind run is restricted to.
#[derive(Debug)]
pub struct Sentinel {
    name: String,
}

impl View for Sentinel {
    type V = Seq<char>;

    closed spec fn view(&self) -> Seq<char> {
        self.name@
    }
}

impl Sentinel {
    /// A sentinel for the function named `name`.
    pub fn new(name: &str) -> (r: Self)
        ensures
            r@ == name@,
    {
        Sentinel { name: name.to_string() }
    }

    /// The function name.
    pub fn as_str(&self) -> (r: &str)
        ensures
            r@ == self@,
    {
        self.name.as_str()
    }

    /// A copy of this sentinel.
    pub fn duplicate(&self) -> (r: Self)
        ensures
            r@ == self@,
    {
        Sentinel { name: self.name.clone() }
    }
}

/// The settings of a flamegraph parse: where the project lies, the function the run is
/// restricted to, and the least `Ir` cost of a call that is kept (0 keeps every call).
#[derive(Debug)]
pub struct FlamegraphParser {
    project_root: String,
    sentinel: Option<Sentinel>,
    min_cost: u64,
}

/// The calls gathered while reading a callgrind file: their costs by caller and callee, and
/// every function that was called.
#[derive(Debug)]
pub struct CallCollector {
    edges: EdgeTable,
    callees: IdSet,
}

impl CallCollector {
    /// Nothing gathered yet.
    pub fn new() -> (r: Self)
        ensures
            r.wf(),
            r.edges_view() == Map::<IdView, Map<IdView, Map<EventKind, u64>>>::empty(),
            r.callees_view() == Set::<IdView>::empty(),
            r.callee_texts_view() == Map::<IdView, Map<IdView, IdText>>::empty(),
    {
        CallCollector { edges: EdgeTable::new(), callees: IdSet::new() }
    }

    /// The call table is well formed.
    pub closed spec fn wf(&self) -> bool {
        self.edges.wf()
    }

    /// The costs of the calls gathered, by caller and callee.
    pub closed spec fn edges_view(&self) -> Map<IdView, Map<IdView, Map<EventKind, u64>>> {
        self.edges@
    }

    /// By caller, each callee as written where its call was first gathered.
    pub closed spec fn callee_texts_view(&self) -> Map<IdView, Map<IdView, IdText>> {
        self.edges.callee_texts()
    }

    /// The functions that were called.
    pub closed spec fn callees_view(&self) -> Set<IdView> {
        self.callees@
    }
}

/// The functions that start the walk where no sentinel is set: those with a cost that call
/// something and are called by nothing.
pub open spec fn root_candidates(
    costs: Map<IdView, Map<EventKind, u64>>,
    callees: Set<IdView>,
    edges: Map<IdView, Map<IdView, Map<EventKind, u64>>>,
) -> Set<IdView> {
    Set::new(|k: IdView| costs.contains_key(k) && !callees.contains(k) && edges.contains_key(k))
}

/// The call of a function is dropped: culling is on and its `Ir` cost is below the least cost.
pub open spec fn call_is_culled(min_cost: u64, metrics: Map<EventKind, u64>) -> bool {
    min_cost > 0 && metrics.contains_key(EventKind::Ir) && metrics[EventKind::Ir] < min_cost
}

/// Culling looks at the `Ir` count alone: with a least cost of 0 nothing is dropped; otherwise
/// a call whose `Ir` count is below the least cost is dropped, one whose `Ir` count reaches it
/// or that has none is kept, whatever its other counts; two calls with the same `Ir` count are
/// culled alike.
pub proof fn lemma_culling_looks_at_ir_alone(min_cost: u64, m1: Map<EventKind, u64>, m2: Map<EventKind, u64>)
    ensures
        min_cost == 0 ==> !call_is_culled(min_cost, m1),
        min_cost > 0 && m1.contains_key(EventKind::Ir) && m1[EventKind::Ir] < min_cost
            ==> call_is_culled(min_cost, m1),
        m1.contains_key(EventKind::Ir) && m1[EventKind::Ir] >= min_cost ==> !call_is_culled(
            min_cost,
            m1,
        ),
        !m1.contains_key(EventKind::Ir) ==> !call_is_culled(min_cost, m1),
        (m1.contains_key(EventKind::Ir) <==> m2.contains_key(EventKind::Ir))
            && (m1.contains_key(EventKind::Ir) ==> m1[EventKind::Ir] == m2[EventKind::Ir])
            ==> call_is_culled(min_cost, m1) == call_is_culled(min_cost, m2),
{
}

/// The call table holds a call from `caller` to `callee`.
pub open spec fn has_call(
    edges: Map<IdView, Map<IdView, Map<EventKind, u64>>>,
    caller: IdView,
    callee: IdView,
) -> bool {
    edges.contains_key(caller) && edges[caller].contains_key(callee)
}

/// The call table and the called functions that `record_call` gathers from nothing, under
/// the least cost `min_cost`, when handed the calls of `calls` (caller, callee, cost) in turn.
pub open spec fn recorded_calls(
    min_cost: u64,
    calls: Seq<(IdView, IdView, Map<EventKind, u64>)>,
) -> (Map<IdView, Map<IdView, Map<EventKind, u64>>>, Set<IdView>)
    decreases calls.len(),
{
    if calls.len() == 0 {
        (Map::empty(), Set::empty())
    } else {
        let before = recorded_calls(min_cost, calls.drop_last());
        let c = calls.last();
        if call_is_culled(min_cost, c.2) {
            before
        } else {
            (edge_table_record(before.0, c.0, c.1, c.2), before.1.insert(c.1))
        }
    }
}

/// Recording a call keeps the calls already in the table and adds that one, and no other.
proof fn lemma_record_calls(
    edges: Map<IdView, Map<IdView, Map<EventKind, u64>>>,
    caller: IdView,
    callee: IdView,
    m: Map<EventKind, u64>,
)
    ensures
        has_call(edge_table_record(edges, caller, callee, m), caller, callee),
        forall|u: IdView, v: IdView|
            #[trigger] has_call(edge_table_record(edges, caller, callee, m), u, v) <==> (has_call(
                edges,
                u,
                v,
            ) || (u == caller && v == callee)),
{
}

/// A larger least cost never keeps more: every call and every called function that is
/// gathered under the least cost `b` is gathered under the smaller least cost `a` too.
pub proof fn lemma_larger_least_cost_keeps_fewer_calls(
    a: u64,
    b: u64,
    calls: Seq<(IdView, IdView, Map<EventKind, u64>)>,
)
    requires
        a <= b,
    ensures
        forall|u: IdView, v: IdView|
            #[trigger] has_call(recorded_calls(b, calls).0, u, v) ==> has_call(
                recorded_calls(a, calls).0,
                u,
                v,
            ),
        recorded_calls(b, calls).1.subset_of(recorded_calls(a, calls).1),
    decreases calls.len(),
{
    if calls.len() > 0 {
        let c = calls.last();
        let ra = recorded_calls(a, calls.drop_last());
        let rb = recorded_calls(b, calls.drop_last());
        lemma_larger_least_cost_keeps_fewer_calls(a, b, calls.drop_last());
        lemma_record_calls(ra.0, c.0, c.1, c.2);
        lemma_record_calls(rb.0, c.0, c.1, c.2);
    }
}

/// A least cost of 0 keeps every call: each call handed over is in the call table, and its
/// callee among the called functions.
pub proof fn lemma_zero_least_cost_keeps_every_call(calls: Seq<(IdView, IdView, Map<EventKind, u64>)>)
    ensures
        forall|i: int|
            0 <= i < calls.len() ==> has_call(
                recorded_calls(0, calls).0,
                #[trigger] calls[i].0,
                calls[i].1,
            ) && recorded_calls(0, calls).1.contains(calls[i].1),
    decreases calls.len(),
{
    if calls.len() > 0 {
        let c = calls.last();
        let before = recorded_calls(0, calls.drop_last());
        lemma_zero_least_cost_keeps_every_call(calls.drop_last());
        lemma_record_calls(before.0, c.0, c.1, c.2);
        assert forall|i: int| 0 <= i < calls.len() implies has_call(
            recorded_calls(0, calls).0,
            #[trigger] calls[i].0,
            calls[i].1,
        ) && recorded_calls(0, calls).1.contains(calls[i].1) by {
            if i < calls.len() - 1 {
                assert(calls.drop_last()[i] == calls[i]);
            }
        }
    }
}

/// Inserts an identifier at the place that keeps the sequence in `id_order`.
fn insert_id(out: &mut Vec<Id>, id: Id)
    requires
        strictly_sorted(id_views(old(out)@), id_order()),
        forall|k: int| 0 <= k < old(out)@.len() ==> (#[trigger] old(out)@[k])@ != id@,
    ensures
        strictly_sorted(id_views(final(out)@), id_order()),
        id_views(final(out)@).to_set() == id_views(old(out)@).to_set().insert(id@),
        exists|p: int| 0 <= p <= old(out)@.len() && final(out)@ == old(out)@.insert(p, id),
{
    let mut p: usize = 0;
    while p < out.len()
        invariant
            p <= out.len(),
            out@ == old(out)@,
            forall|k: int| 0 <= k < out@.len() ==> (#[trigger] out@[k])@ != id@,
            forall|k: int| 0 <= k < p ==> id_order()(#[trigger] id_views(out@)[k], id@),
        ensures
            p <= out.len(),
            out@ == old(out)@,
            forall|k: int| 0 <= k < p ==> id_order()(#[trigger] id_views(out@)[k], id@),
            p < out.len() ==> id_order()(id@, id_views(out@)[p as int]),
        decreases out.len() - p,
    {
        if id.compare(&out[p]) == Rank::Less {
            break;
        }
        proof {
            lemma_orders_strict_total();
            assert(id_views(out@)[p as int] == out@[p as int]@);
            assert(id_order()(id_views(out@)[p as int], id@) || id_order()(id@, id_views(out@)[p as int]));
        }
        p = p + 1;
    }
    let ghost s = id_views(out@);
    proof {
        lemma_orders_strict_total();
        lemma_insert_sorted(s, id@, p as int, id_order());
    }
    let ghost before = out@;
    out.insert(p, id);
    assert(id_views(out@) =~= s.insert(p as int, id@));
    assert(out@ == before.insert(p as int, id));
}

impl FlamegraphParser {
    /// The project root.
    pub closed spec fn project_root_view(&self) -> Seq<char> {
        self.project_root@
    }

    /// The sentinel, if any.
    pub closed spec fn sentinel_view(&self) -> Option<Seq<char>> {
        match self.sentinel {
            Some(s) => Some(s@),
            None => None,
        }
    }

    /// The least `Ir` cost of a call that is kept.
    pub closed spec fn min_cost_view(&self) -> u64 {
        self.min_cost
    }

    /// A parser with the given settings.
    pub fn new(sentinel: Option<&Sentinel>, project_root: String, min_cost: u64) -> (r: Self)
        ensures
            r.sentinel_view() == (match sentinel {
                Some(s) => Some(s@),
                None => None,
            }),
            r.project_root_view() == project_root@,
            r.min_cost_view() == min_cost,
    {
        let sentinel = match sentinel {
            Some(s) => Some(s.duplicate()),
            None => None,
        };
        FlamegraphParser { project_root, sentinel, min_cost }
    }

    /// Gathers a call from `caller` to `callee` that cost `metrics`, unless it is culled: its
    /// cost is added to that of earlier calls between the two, and `callee` counts as called.
    pub fn record_call(
        &self,
        calls: &mut CallCollector,
        caller: &Id,
        callee: &Id,
        metrics: &Metrics,
    )
        requires
            old(calls).wf(),
            metrics.wf(),
        ensures
            final(calls).wf(),
            call_is_culled(self.min_cost_view(), metrics@) ==> final(calls).edges_view() == old(
                calls,
            ).edges_view() && final(calls).callees_view() == old(calls).callees_view()
                && final(calls).callee_texts_view() == old(calls).callee_texts_view(),
            !call_is_culled(self.min_cost_view(), metrics@) ==> final(calls).callee_texts_view()
                == callee_texts_record(old(calls).callee_texts_view(), caller@, callee@, callee.text()),
            !call_is_culled(self.min_cost_view(), metrics@) ==> final(calls).edges_view()
                == edge_table_record(old(calls).edges_view(), caller@, callee@, metrics@)
                && final(calls).callees_view() == old(calls).callees_view().insert(callee@),
    {
        if self.min_cost > 0 {
            match metrics.metric_by_kind(EventKind::Ir) {
                Some(ir) => {
                    if ir < self.min_cost {
                        return;
                    }
                },
                None => {},
            }
        }
        calls.edges.record(caller, callee, metrics);
        calls.callees.insert(callee);
    }

    /// The flamegraph map of the function costs `costs` and the gathered calls. Its roots are
    /// the sentinel function, where one is set, or else the functions of
    /// `root_candidates`, in `id_order`.
    pub fn assemble(costs: CallgrindMap, calls: CallCollector) -> (r: FlamegraphMap)
        requires
            costs.map.wf(),
            calls.wf(),
        ensures
            r.wf(),
            r@.costs == costs.map@,
            r@.edges == calls.edges_view(),
            r@.callee_texts == calls.callee_texts_view(),
            r@.root_texts == (match costs.sentinel_key {
                Some(k) => seq![k.text()],
                None => r@.roots.map_values(|k: IdView| costs.map.texts()[k]),
            }),
            r.sentinel() == (match costs.sentinel_key {
                Some(k) => Some(k@),
                None => None,
            }),
            r@.roots == (match costs.sentinel_key {
                Some(k) => seq![k@],
                None => sorted_of(
                    root_candidates(costs.map@, calls.callees_view(), calls.edges_view()),
                    id_order(),
                ),
            }),
    {
        let roots = match &costs.sentinel_key {
            Some(key) => {
                let mut r: Vec<Id> = Vec::new();
                r.push(key.duplicate());
                assert(id_views(r@) =~= seq![key@]);
                assert(id_texts(r@) =~= seq![key.text()]);
                r
            },
            None => {
                let ghost pairs = costs.map.pairs();
                proof {
                    costs.map.lemma_wf();
                    lemma_orders_strict_total();
                }
                let mut r: Vec<Id> = Vec::new();
                let mut i: usize = 0;
                let ghost cand = root_candidates(costs.map@, calls.callees_view(), calls.edges_view());
                assert(id_views(r@).to_set() =~= Set::new(
                    |k: IdView| exists|j: int| 0 <= j < 0 && #[trigger] pairs[j].0 == k && cand.contains(k),
                ));
                while i < costs.map.len()
                    invariant
                        costs.map.wf(),
                        calls.wf(),
                        pairs == costs.map.pairs(),
                        keys_distinct(pairs),
                        i <= pairs.len(),
                        cand == root_candidates(costs.map@, calls.callees_view(), calls.edges_view()),
                        forall|j: int| 0 <= j < pairs.len() ==> costs.map@.contains_key(#[trigger] pairs[j].0),
                        strictly_sorted(id_views(r@), id_order()),
                        forall|x: int| 0 <= x < r@.len() ==> (#[trigger] r@[x]).text() == costs.map.texts()[r@[x]@],
                        id_views(r@).to_set() == Set::new(
                            |k: IdView| exists|j: int| 0 <= j < i && #[trigger] pairs[j].0 == k && cand.contains(k),
                        ),
                    decreases pairs.len() - i,
                {
                    let (k, _) = costs.map.entry(i);
                    let ghost before = id_views(r@);
                    let ghost old_r = r@;
                    if !calls.callees.contains(k) && calls.edges.contains_key(k) {
                        proof {
                            assert(cand.contains(k@));
                            assert forall|x: int| 0 <= x < r@.len() implies (#[trigger] r@[x])@ != k@ by {
                                assert(before[x] == r@[x]@);
                                assert(before.to_set().contains(before[x]));
                                let j = choose|j: int| 0 <= j < i && #[trigger] pairs[j].0 == before[x] && cand.contains(before[x]);
                                assert(pairs[j].0 != pairs[i as int].0);
                            }
                        }
                        let d = k.duplicate();
                        insert_id(&mut r, d);
                        proof {
                            let p = choose|p: int| 0 <= p <= old_r.len() && r@ == old_r.insert(p, d);
                            assert forall|x: int| 0 <= x < r@.len() implies (#[trigger] r@[x]).text() == costs.map.texts()[r@[x]@] by {
                                if x < p {
                                    assert(r@[x] == old_r[x]);
                                } else if x > p {
                                    assert(r@[x] == old_r[x - 1]);
                                }
                            }
                        }
                    }
                    proof {
                        assert(id_views(r@).to_set() =~= Set::new(
                            |x: IdView| exists|j: int| 0 <= j < i + 1 && #[trigger] pairs[j].0 == x && cand.contains(x),
                        )) by {
                            assert forall|x: IdView| #[trigger] id_views(r@).to_set().contains(x) implies
                                exists|j: int| 0 <= j < i + 1 && #[trigger] pairs[j].0 == x && cand.contains(x) by {
                                if before.to_set().contains(x) {
                                    let j = choose|j: int| 0 <= j < i && #[trigger] pairs[j].0 == x && cand.contains(x);
                                    assert(0 <= j < i + 1);
                                } else {
                                    assert(pairs[i as int].0 == x);
                                }
                            }
                            assert forall|x: IdView| (exists|j: int| 0 <= j < i + 1 && #[trigger] pairs[j].0 == x && cand.contains(x))
                                implies #[trigger] id_views(r@).to_set().contains(x) by {
                                let j = choose|j: int| 0 <= j < i + 1 && #[trigger] pairs[j].0 == x && cand.contains(x);
                                if j < i {
                                    assert(before.to_set().contains(x));
                                }
                            }
                        }
                    }
                    i = i + 1;
                }
                proof {
                    assert(id_views(r@).to_set() =~= cand) by {
                        assert forall|x: IdView| cand.contains(x) implies #[trigger] id_views(r@).to_set().contains(x) by {
                            let j = choose|j: int| 0 <= j < pairs.len() && #[trigger] pairs[j].0 == x;
                        }
                    }
                    lemma_sorted_of(id_views(r@), cand, id_order());
                    assert(id_texts(r@) =~= id_views(r@).map_values(|k: IdView| costs.map.texts()[k]));
                }
                r
            },
        };
        FlamegraphMap { roots, costs, edges: calls.edges }
    }
}

} // verus!
