//! What the flamegraph stacks of a call graph are: a depth-first walk from the roots that
//! reports every function once, on the first path that reaches it.
use vstd::prelude::*;
use crate::decimal::decimal;
use crate::id::{id_lt, label, lemma_id_lt_strict_total, IdText, IdView};
use crate::metrics::{sat_add, sat_sub, EventKind};
use crate::sorting::{lemma_sorted_exists, sorted_of, strict_total, strictly_sorted};
use crate::tables::callees_of;

verus! {

/// The abstract value of a flamegraph map.
pub struct GraphView {
    /// The functions the walk starts from, in order.
    pub roots: Seq<IdView>,
    /// The roots as written.
    pub root_texts: Seq<IdText>,
    /// The inclusive metrics of each function.
    pub costs: Map<IdView, Map<EventKind, u64>>,
    /// By caller, the metrics of the calls to each callee.
    pub edges: Map<IdView, Map<IdView, Map<EventKind, u64>>>,
    /// By caller, each callee as written in the call table.
    pub callee_texts: Map<IdView, Map<IdView, IdText>>,
}

/// Every function that the graph mentions: roots, callers and callees.
pub open spec fn graph_nodes(g: GraphView) -> Set<IdView> {
    g.roots.to_set().union(g.edges.dom()).union(
        g.edges.dom().map(|k: IdView| g.edges[k].dom()).flatten(),
    )
}

/// The call table and each of its callee tables are finite.
pub open spec fn graph_finite(g: GraphView) -> bool {
    &&& g.edges.dom().finite()
    &&& forall|k: IdView| #[trigger] g.edges.contains_key(k) ==> g.edges[k].dom().finite()
}

pub proof fn lemma_nodes_finite(g: GraphView)
    requires
        graph_finite(g),
    ensures
        graph_nodes(g).finite(),
{
    let f = |k: IdView| g.edges[k].dom();
    g.edges.dom().lemma_map_finite(f);
    assert forall|s: Set<IdView>| #[trigger] g.edges.dom().map(f).contains(s) implies s.finite() by {
        let k = choose|k: IdView| g.edges.dom().contains(k) && f(k) == s;
    }
    g.edges.dom().map(f).lemma_flatten_finite();
    vstd::seq_lib::seq_to_set_is_finite(g.roots);
}

/// The order of children: larger cost first, then by identifier.
pub open spec fn child_order() -> spec_fn((IdView, u64), (IdView, u64)) -> bool {
    |a: (IdView, u64), b: (IdView, u64)| a.1 > b.1 || (a.1 == b.1 && id_lt(a.0, b.0))
}

/// The order of identifiers.
pub open spec fn id_order() -> spec_fn(IdView, IdView) -> bool {
    |a: IdView, b: IdView| id_lt(a, b)
}

pub proof fn lemma_orders_strict_total()
    ensures
        strict_total(child_order()),
        strict_total(id_order()),
{
    lemma_id_lt_strict_total();
    let lt = child_order();
    assert forall|a: (IdView, u64), b: (IdView, u64)| a != b implies #[trigger] lt(a, b)
        || #[trigger] lt(b, a) by {
        if a.1 == b.1 {
            assert(a.0 != b.0);
        }
    }
    assert forall|a: (IdView, u64), b: (IdView, u64), c: (IdView, u64)|
        #[trigger] lt(a, b) && #[trigger] lt(b, c) implies lt(a, c) by {
    }
    assert forall|a: (IdView, u64)| !#[trigger] lt(a, a) by {
    }
    let lo = id_order();
    assert forall|a: IdView, b: IdView| a != b implies #[trigger] lo(a, b) || #[trigger] lo(b, a) by {
    }
    assert forall|a: IdView, b: IdView, c: IdView|
        #[trigger] lo(a, b) && #[trigger] lo(b, c) implies lo(a, c) by {
    }
    assert forall|a: IdView| !#[trigger] lo(a, a) by {
    }
}

/// The callees of `id` that are not in `visited` and whose call has a count of `kind`,
/// each with that count.
pub open spec fn child_candidates(
    g: GraphView,
    id: IdView,
    kind: EventKind,
    visited: Set<IdView>,
) -> Set<(IdView, u64)> {
    let c = callees_of(g.edges, id);
    Set::new(
        |p: (IdView, u64)|
            c.contains_key(p.0) && !visited.contains(p.0) && c[p.0].contains_key(kind) && p.1
                == c[p.0][kind],
    )
}

/// The children that the walk descends into from `id`, in the order of `child_order`.
pub open spec fn children(g: GraphView, id: IdView, kind: EventKind, visited: Set<IdView>) -> Seq<
    (IdView, u64),
> {
    sorted_of(child_candidates(g, id, kind, visited), child_order())
}

/// The inclusive cost of a function: the cost of the call that reached it, or, for a root,
/// its own count of `kind` (0 where it has none).
pub open spec fn inclusive_cost(g: GraphView, id: IdView, kind: EventKind, edge: Option<u64>) -> u64 {
    match edge {
        Some(c) => c,
        None => if g.costs.contains_key(id) && g.costs[id].contains_key(kind) {
            g.costs[id][kind]
        } else {
            0
        },
    }
}

/// The sum of the costs of `s`, saturating.
pub open spec fn cost_total(s: Seq<(IdView, u64)>) -> u64
    decreases s.len(),
{
    if s.len() == 0 {
        0
    } else {
        sat_add(cost_total(s.drop_last()), s.last().1)
    }
}

/// The stack of the function written `id` below the stack `parent` (which is empty at a root).
pub open spec fn stack_of(parent: Seq<char>, id: IdText) -> Seq<char> {
    if parent.len() == 0 {
        label(id)
    } else {
        parent + seq![';'] + label(id)
    }
}

/// A line of the stacks format: the stack, a space, and the cost.
pub open spec fn stack_line(stack: Seq<char>, cost: u64) -> Seq<char> {
    stack + seq![' '] + decimal(cost as nat)
}

/// The children of a function as items of the walk: each with the cost of its call.
pub open spec fn child_items(kids: Seq<(IdView, u64)>) -> Seq<(IdView, Option<u64>)> {
    kids.map_values(|c: (IdView, u64)| (c.0, Some(c.1)))
}

/// The children of `id` as written in its call table.
pub open spec fn kid_texts(g: GraphView, id: IdView, kids: Seq<(IdView, u64)>) -> Seq<IdText> {
    kids.map_values(|c: (IdView, u64)| g.callee_texts[id][c.0])
}

/// The roots as items of the walk: without a call cost.
pub open spec fn root_items(roots: Seq<IdView>) -> Seq<(IdView, Option<u64>)> {
    roots.map_values(|r: IdView| (r, None::<u64>))
}

/// The measure of the walk: the functions not yet visited.
pub open spec fn unvisited(g: GraphView, visited: Set<IdView>) -> nat {
    graph_nodes(g).difference(visited).len()
}

/// The walk from `id`, reached below the stack `parent` by a call that cost `edge` (none at a
/// root), where the functions in `visited` were reported already: the reported functions with
/// their lines, and the visited functions afterwards.
pub open spec fn emit_node(
    g: GraphView,
    kind: EventKind,
    id: IdView,
    text: IdText,
    parent: Seq<char>,
    edge: Option<u64>,
    visited: Set<IdView>,
) -> (Seq<(IdView, Seq<char>)>, Set<IdView>)
    decreases unvisited(g, visited), 0nat, 0nat,
    when graph_finite(g)
{
    if visited.contains(id) {
        (Seq::empty(), visited)
    } else {
        let v1 = visited.insert(id);
        let kids = children(g, id, kind, v1);
        let stack = stack_of(parent, text);
        let line = stack_line(stack, sat_sub(inclusive_cost(g, id, kind, edge), cost_total(kids)));
        if !graph_nodes(g).contains(id) {
            // A function outside the graph calls nothing: `kids` is empty.
            (seq![(id, line)], v1)
        } else {
            proof {
                lemma_nodes_finite(g);
                lemma_unvisited_insert(g, visited, id);
            }
            let r = emit_list(g, kind, child_items(kids), kid_texts(g, id, kids), 0, stack, v1);
            (seq![(id, line)] + r.0, r.1)
        }
    }
}

/// The walk from each of `items[i..]` in turn, below the stack `parent`.
pub open spec fn emit_list(
    g: GraphView,
    kind: EventKind,
    items: Seq<(IdView, Option<u64>)>,
    texts: Seq<IdText>,
    i: int,
    parent: Seq<char>,
    visited: Set<IdView>,
) -> (Seq<(IdView, Seq<char>)>, Set<IdView>)
    decreases unvisited(g, visited), 1nat, if i < items.len() {
        (items.len() - i) as nat
    } else {
        0nat
    },
    when graph_finite(g)
{
    if i < 0 || i >= items.len() {
        (Seq::empty(), visited)
    } else {
        let a = emit_node(g, kind, items[i].0, texts[i], parent, items[i].1, visited);
        proof {
            lemma_nodes_finite(g);
            lemma_unvisited_union(g, visited, a.1);
        }
        let b = emit_list(g, kind, items, texts, i + 1, parent, visited.union(a.1));
        (a.0 + b.0, b.1)
    }
}

pub proof fn lemma_unvisited_insert(g: GraphView, visited: Set<IdView>, id: IdView)
    requires
        graph_nodes(g).finite(),
        graph_nodes(g).contains(id),
        !visited.contains(id),
    ensures
        unvisited(g, visited.insert(id)) < unvisited(g, visited),
{
    let n = graph_nodes(g);
    assert(n.difference(visited.insert(id)) =~= n.difference(visited).remove(id));
}

pub proof fn lemma_unvisited_union(g: GraphView, visited: Set<IdView>, more: Set<IdView>)
    requires
        graph_nodes(g).finite(),
    ensures
        unvisited(g, visited.union(more)) <= unvisited(g, visited),
{
    let n = graph_nodes(g);
    vstd::set_lib::lemma_len_subset(n.difference(visited.union(more)), n.difference(visited));
}

/// The lines of the walk, in order.
pub open spec fn lines_of(out: Seq<(IdView, Seq<char>)>) -> Seq<Seq<char>> {
    out.map_values(|e: (IdView, Seq<char>)| e.1)
}

/// The flamegraph stacks of `g` for the event `kind`: the walk from every root in turn,
/// starting with nothing visited.
pub open spec fn stacks(g: GraphView, kind: EventKind) -> Seq<Seq<char>> {
    lines_of(emit_list(g, kind, root_items(g.roots), g.root_texts, 0, Seq::empty(), Set::empty()).0)
}

/// The functions of the walk's lines, in order.
pub open spec fn ids_of(out: Seq<(IdView, Seq<char>)>) -> Seq<IdView> {
    out.map_values(|e: (IdView, Seq<char>)| e.0)
}

/// What a walk reports: new functions, each once, which are exactly the ones added to the
/// visited set, and each a function of the graph or one of `scope` (where the walk started).
pub open spec fn walk_reports_new_functions(
    g: GraphView,
    visited: Set<IdView>,
    r: (Seq<(IdView, Seq<char>)>, Set<IdView>),
    scope: Set<IdView>,
) -> bool {
    &&& r.1 == visited.union(ids_of(r.0).to_set())
    &&& ids_of(r.0).no_duplicates()
    &&& forall|k: int|
        0 <= k < r.0.len() ==> !visited.contains(#[trigger] r.0[k].0) && (graph_nodes(g).contains(
            r.0[k].0,
        ) || scope.contains(r.0[k].0))
}

/// The functions that a list of walk items starts from.
pub open spec fn item_ids(items: Seq<(IdView, Option<u64>)>) -> Set<IdView> {
    items.map_values(|p: (IdView, Option<u64>)| p.0).to_set()
}

proof fn lemma_reports_widen(
    g: GraphView,
    visited: Set<IdView>,
    r: (Seq<(IdView, Seq<char>)>, Set<IdView>),
    s1: Set<IdView>,
    s2: Set<IdView>,
)
    requires
        walk_reports_new_functions(g, visited, r, s1),
        forall|x: IdView| #[trigger] s1.contains(x) ==> graph_nodes(g).contains(x) || s2.contains(x),
    ensures
        walk_reports_new_functions(g, visited, r, s2),
{
}

/// The candidates for children are finite.
pub proof fn lemma_candidates_finite(g: GraphView, id: IdView, kind: EventKind, visited: Set<IdView>)
    requires
        graph_finite(g),
    ensures
        child_candidates(g, id, kind, visited).finite(),
{
    let c = callees_of(g.edges, id);
    if !g.edges.contains_key(id) {
        assert(c.dom() =~= Set::<IdView>::empty());
    }
    assert(c.dom().finite());
    let f = |k: IdView| (k, c[k][kind]);
    c.dom().lemma_map_finite(f);
    let cand = child_candidates(g, id, kind, visited);
    assert forall|p: (IdView, u64)| cand.contains(p) implies c.dom().map(f).contains(p) by {
        assert(c.dom().contains(p.0) && f(p.0) == p);
    }
    vstd::set_lib::lemma_len_subset(cand, c.dom().map(f));
}

/// The children of a function are exactly the candidates, in `child_order`.
pub proof fn lemma_children(g: GraphView, id: IdView, kind: EventKind, visited: Set<IdView>)
    requires
        graph_finite(g),
    ensures
        strictly_sorted(children(g, id, kind, visited), child_order()),
        children(g, id, kind, visited).to_set() == child_candidates(g, id, kind, visited),
{
    lemma_candidates_finite(g, id, kind, visited);
    lemma_orders_strict_total();
    lemma_sorted_exists(child_candidates(g, id, kind, visited), child_order());
}

proof fn lemma_concat_reports(
    g: GraphView,
    visited: Set<IdView>,
    a: (Seq<(IdView, Seq<char>)>, Set<IdView>),
    b: (Seq<(IdView, Seq<char>)>, Set<IdView>),
    scope: Set<IdView>,
)
    requires
        walk_reports_new_functions(g, visited, a, scope),
        walk_reports_new_functions(g, a.1, b, scope),
    ensures
        walk_reports_new_functions(g, visited, (a.0 + b.0, b.1), scope),
{
    let out = a.0 + b.0;
    assert(ids_of(out) =~= ids_of(a.0) + ids_of(b.0));
    assert forall|k: int| 0 <= k < out.len() implies !visited.contains(#[trigger] out[k].0)
        && (graph_nodes(g).contains(out[k].0) || scope.contains(out[k].0)) by {
        if k >= a.0.len() {
            assert(out[k] == b.0[k - a.0.len()]);
        } else {
            assert(out[k] == a.0[k]);
        }
    }
    let ia = ids_of(a.0);
    let ib = ids_of(b.0);
    assert forall|x: int, y: int| 0 <= x < y < ids_of(out).len() implies ids_of(out)[x] != ids_of(
        out,
    )[y] by {
        if y >= ia.len() && x < ia.len() {
            assert(ids_of(out)[y] == b.0[y - ia.len()].0);
            assert(!a.1.contains(b.0[y - ia.len()].0));
            assert(a.1.contains(ia[x]));
        } else if x >= ia.len() {
            assert(ids_of(out)[x] == ib[x - ia.len()]);
            assert(ids_of(out)[y] == ib[y - ia.len()]);
        } else {
            assert(ids_of(out)[x] == ia[x]);
            assert(ids_of(out)[y] == ia[y]);
        }
    }
    assert(b.1 =~= visited.union(ids_of(out).to_set())) by {
        assert forall|z: IdView| #[trigger] ids_of(out).to_set().contains(z) <==> ia.to_set().contains(z)
            || ib.to_set().contains(z) by {
            if ids_of(out).to_set().contains(z) {
                let k = choose|k: int| 0 <= k < ids_of(out).len() && ids_of(out)[k] == z;
                if k < ia.len() {
                    assert(ia[k] == z);
                } else {
                    assert(ib[k - ia.len()] == z);
                }
            }
            if ia.to_set().contains(z) {
                let k = choose|k: int| 0 <= k < ia.len() && ia[k] == z;
                assert(ids_of(out)[k] == z);
            }
            if ib.to_set().contains(z) {
                let k = choose|k: int| 0 <= k < ib.len() && ib[k] == z;
                assert(ids_of(out)[k + ia.len()] == z);
            }
        }
    }
}

/// The walk from one function reports new functions only, each once.
pub proof fn lemma_emit_node(
    g: GraphView,
    kind: EventKind,
    id: IdView,
    text: IdText,
    parent: Seq<char>,
    edge: Option<u64>,
    visited: Set<IdView>,
)
    requires
        graph_finite(g),
    ensures
        walk_reports_new_functions(g, visited, emit_node(g, kind, id, text, parent, edge, visited), set![id]),
    decreases unvisited(g, visited), 0nat, 0nat,
{
    let r = emit_node(g, kind, id, text, parent, edge, visited);
    if visited.contains(id) {
        assert(ids_of(r.0) =~= Seq::<IdView>::empty());
        assert(visited.union(ids_of(r.0).to_set()) =~= visited);
    } else {
        let v1 = visited.insert(id);
        let kids = children(g, id, kind, v1);
        let stack = stack_of(parent, text);
        let line = stack_line(stack, sat_sub(inclusive_cost(g, id, kind, edge), cost_total(kids)));
        let head: (Seq<(IdView, Seq<char>)>, Set<IdView>) = (seq![(id, line)], v1);
        assert(ids_of(head.0) =~= seq![id]);
        assert(v1 =~= visited.union(ids_of(head.0).to_set())) by {
            assert(ids_of(head.0)[0] == id);
            assert(ids_of(head.0).contains(id));
            assert forall|z: IdView| ids_of(head.0).to_set().contains(z) implies z == id by {
                let k = choose|k: int| 0 <= k < ids_of(head.0).len() && ids_of(head.0)[k] == z;
            }
        }
        assert(walk_reports_new_functions(g, visited, head, set![id]));
        if graph_nodes(g).contains(id) {
            lemma_nodes_finite(g);
            lemma_unvisited_insert(g, visited, id);
            let items = child_items(kids);
            let texts = kid_texts(g, id, kids);
            lemma_emit_list(g, kind, items, texts, 0, stack, v1);
            lemma_children(g, id, kind, v1);
            let iv = items.map_values(|p: (IdView, Option<u64>)| p.0);
            assert forall|x: IdView| #[trigger] item_ids(items).contains(x) implies graph_nodes(g).contains(x)
                || set![id].contains(x) by {
                let j = choose|j: int| 0 <= j < iv.len() && #[trigger] iv[j] == x;
                assert(items[j].0 == kids[j].0);
                assert(kids.to_set().contains(kids[j]));
                lemma_candidates_in_nodes(g, id, kind, v1, kids[j]);
            }
            lemma_reports_widen(g, v1, emit_list(g, kind, items, texts, 0, stack, v1), item_ids(items), set![id]);
            lemma_concat_reports(g, visited, head, emit_list(g, kind, items, texts, 0, stack, v1), set![id]);
            assert(r == (head.0 + emit_list(g, kind, items, texts, 0, stack, v1).0, emit_list(g, kind, items, texts, 0, stack, v1).1));
        }
    }
}

/// The walk from a list of functions reports new functions only, each once.
pub proof fn lemma_emit_list(
    g: GraphView,
    kind: EventKind,
    items: Seq<(IdView, Option<u64>)>,
    texts: Seq<IdText>,
    i: int,
    parent: Seq<char>,
    visited: Set<IdView>,
)
    requires
        graph_finite(g),
    ensures
        walk_reports_new_functions(g, visited, emit_list(g, kind, items, texts, i, parent, visited), item_ids(items)),
    decreases unvisited(g, visited), 1nat, if i < items.len() {
        (items.len() - i) as nat
    } else {
        0nat
    },
{
    let r = emit_list(g, kind, items, texts, i, parent, visited);
    if i < 0 || i >= items.len() {
        assert(ids_of(r.0) =~= Seq::<IdView>::empty());
        assert(visited.union(ids_of(r.0).to_set()) =~= visited);
    } else {
        let a = emit_node(g, kind, items[i].0, texts[i], parent, items[i].1, visited);
        lemma_nodes_finite(g);
        lemma_unvisited_union(g, visited, a.1);
        lemma_emit_node(g, kind, items[i].0, texts[i], parent, items[i].1, visited);
        assert(items.map_values(|p: (IdView, Option<u64>)| p.0)[i] == items[i].0);
        assert(item_ids(items).contains(items[i].0));
        lemma_reports_widen(g, visited, a, set![items[i].0], item_ids(items));
        assert(visited.union(a.1) =~= a.1);
        lemma_emit_list(g, kind, items, texts, i + 1, parent, a.1);
        lemma_concat_reports(g, visited, a, emit_list(g, kind, items, texts, i + 1, parent, a.1), item_ids(items));
    }
}

/// One step of the walk over a list: the first item, then the rest from what it visited.
pub proof fn lemma_emit_list_step(
    g: GraphView,
    kind: EventKind,
    items: Seq<(IdView, Option<u64>)>,
    texts: Seq<IdText>,
    i: int,
    parent: Seq<char>,
    visited: Set<IdView>,
)
    requires
        graph_finite(g),
        0 <= i < items.len(),
    ensures
        ({
            let a = emit_node(g, kind, items[i].0, texts[i], parent, items[i].1, visited);
            let b = emit_list(g, kind, items, texts, i + 1, parent, a.1);
            emit_list(g, kind, items, texts, i, parent, visited) == (a.0 + b.0, b.1)
        }),
{
    let a = emit_node(g, kind, items[i].0, texts[i], parent, items[i].1, visited);
    lemma_emit_node(g, kind, items[i].0, texts[i], parent, items[i].1, visited);
    assert(visited.union(a.1) =~= a.1);
}

/// The walk over an exhausted list reports nothing.
pub proof fn lemma_emit_list_end(
    g: GraphView,
    kind: EventKind,
    items: Seq<(IdView, Option<u64>)>,
    texts: Seq<IdText>,
    parent: Seq<char>,
    visited: Set<IdView>,
)
    requires
        graph_finite(g),
    ensures
        emit_list(g, kind, items, texts, items.len() as int, parent, visited) == (
            Seq::<(IdView, Seq<char>)>::empty(),
            visited,
        ),
{
}

/// Every candidate child is a function of the graph.
pub proof fn lemma_candidates_in_nodes(
    g: GraphView,
    id: IdView,
    kind: EventKind,
    visited: Set<IdView>,
    p: (IdView, u64),
)
    requires
        child_candidates(g, id, kind, visited).contains(p),
    ensures
        graph_nodes(g).contains(p.0),
{
    let f = |k: IdView| g.edges[k].dom();
    assert(g.edges.contains_key(id));
    assert(g.edges.dom().map(f).contains(f(id)));
    assert(f(id).contains(p.0));
}

/// The functions that the lines of the stacks report, in order.
pub open spec fn stack_functions(g: GraphView, kind: EventKind) -> Seq<IdView> {
    ids_of(emit_list(g, kind, root_items(g.roots), g.root_texts, 0, Seq::empty(), Set::empty()).0)
}

/// Each function of the graph is reported at most once: the functions of the lines are
/// distinct functions of the graph, one per line, so there are no more lines than functions.
pub proof fn lemma_stacks_report_each_function_once(g: GraphView, kind: EventKind)
    requires
        graph_finite(g),
    ensures
        stack_functions(g, kind).no_duplicates(),
        stack_functions(g, kind).len() == stacks(g, kind).len(),
        forall|k: int|
            0 <= k < stack_functions(g, kind).len() ==> graph_nodes(g).contains(
                #[trigger] stack_functions(g, kind)[k],
            ),
        stacks(g, kind).len() <= graph_nodes(g).len(),
{
    let r = emit_list(g, kind, root_items(g.roots), g.root_texts, 0, Seq::empty(), Set::empty());
    lemma_emit_list(g, kind, root_items(g.roots), g.root_texts, 0, Seq::empty(), Set::empty());
    let ids = ids_of(r.0);
    let items = root_items(g.roots);
    assert forall|k: int| 0 <= k < ids.len() implies graph_nodes(g).contains(#[trigger] ids[k]) by {
        assert(ids[k] == r.0[k].0);
        let iv = items.map_values(|p: (IdView, Option<u64>)| p.0);
        if item_ids(items).contains(ids[k]) {
            let j = choose|j: int| 0 <= j < iv.len() && #[trigger] iv[j] == ids[k];
            assert(items[j].0 == g.roots[j]);
            assert(g.roots.to_set().contains(g.roots[j]));
        }
    }
    lemma_nodes_finite(g);
    ids.unique_seq_to_set();
    assert(ids.to_set().subset_of(graph_nodes(g)));
    vstd::set_lib::lemma_len_subset(ids.to_set(), graph_nodes(g));
}

/// A function's own cost never exceeds its inclusive cost.
pub proof fn lemma_self_cost_bounded(g: GraphView, id: IdView, kind: EventKind, edge: Option<u64>, kids: Seq<(IdView, u64)>)
    ensures
        sat_sub(inclusive_cost(g, id, kind, edge), cost_total(kids)) <= inclusive_cost(g, id, kind, edge),
{
}

/// Children come by cost, the larger first; children of equal cost by identifier.
pub proof fn lemma_children_by_cost(a: IdView, ca: u64, b: IdView, cb: u64)
    ensures
        ca > cb ==> child_order()((a, ca), (b, cb)) && !child_order()((b, cb), (a, ca)),
        ca == cb && id_lt(a, b) ==> child_order()((a, ca), (b, cb)),
{
}

/// A line is its stack, a space and the cost in decimal; a root's stack is its label, and a
/// callee's stack is its caller's stack, `;` and its label.
pub proof fn lemma_line_shape(parent: Seq<char>, t: IdText, cost: u64)
    ensures
        stack_of(Seq::empty(), t) == label(t),
        parent.len() > 0 ==> stack_of(parent, t) == parent + seq![';'] + label(t),
        stack_line(stack_of(parent, t), cost) == stack_of(parent, t) + seq![' '] + decimal(
            cost as nat,
        ),
{
}

/// The roots where no sentinel is set: each has a cost, calls something and is called by
/// nothing, and every such function is one.
pub proof fn lemma_root_candidates(
    costs: Map<IdView, Map<EventKind, u64>>,
    callees: Set<IdView>,
    edges: Map<IdView, Map<IdView, Map<EventKind, u64>>>,
    k: IdView,
)
    ensures
        crate::flamegraph::root_candidates(costs, callees, edges).contains(k) <==> (costs.contains_key(k)
            && edges.contains_key(k) && !callees.contains(k)),
{
}

} // verus!
