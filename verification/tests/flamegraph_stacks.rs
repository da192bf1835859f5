use gungraun_runner::flamegraph::{
    CallCollector, CallgrindMap, FlamegraphError, FlamegraphMap, FlamegraphParser, Sentinel,
};
use gungraun_runner::id::{Id, SourcePath};
use gungraun_runner::metrics::{EventKind, Metrics};
use gungraun_runner::tables::CostTable;

fn func(name: &str) -> Id {
    Id { file: None, func: name.to_string(), obj: None }
}

fn ir(value: u64) -> Metrics {
    let mut m = Metrics::new();
    m.insert(EventKind::Ir, value);
    m
}

fn costs(entries: &[(&str, u64)]) -> CostTable {
    let mut t = CostTable::new();
    for (name, value) in entries {
        t.add_metrics(&func(name), &ir(*value));
    }
    t
}

fn diamond(min_cost: u64) -> FlamegraphMap {
    let parser = FlamegraphParser::new(None, "/project".to_string(), min_cost);
    let mut calls = CallCollector::new();
    parser.record_call(&mut calls, &func("main"), &func("a"), &ir(600));
    parser.record_call(&mut calls, &func("main"), &func("b"), &ir(300));
    parser.record_call(&mut calls, &func("a"), &func("c"), &ir(100));
    parser.record_call(&mut calls, &func("b"), &func("c"), &ir(50));
    let table = costs(&[("main", 1000), ("a", 600), ("b", 300), ("c", 150)]);
    FlamegraphParser::assemble(CallgrindMap { map: table, sentinel_key: None }, calls)
}

#[test]
fn stacks_of_a_diamond_report_each_function_once() {
    let map = diamond(0);
    let stacks = map.to_stack_format(&EventKind::Ir).unwrap();
    assert_eq!(
        stacks,
        vec![
            "main 100".to_string(),
            "main;a 500".to_string(),
            "main;a;c 100".to_string(),
            "main;b 300".to_string(),
        ]
    );
}

#[test]
fn missing_event_is_an_error() {
    let map = diamond(0);
    assert_eq!(
        map.to_stack_format(&EventKind::Dr),
        Err(FlamegraphError::MissingEvent(EventKind::Dr))
    );
}

#[test]
fn empty_map_gives_no_stacks() {
    let map = FlamegraphMap::default();
    assert!(map.is_empty());
    assert_eq!(map.to_stack_format(&EventKind::Dr), Ok(vec![]));
    assert!(!diamond(0).is_empty());
}

#[test]
fn culled_calls_are_dropped() {
    // The call from b to c costs 50 < 100 and is dropped, so c is only reached from a.
    let map = diamond(100);
    let stacks = map.to_stack_format(&EventKind::Ir).unwrap();
    assert_eq!(stacks, vec!["main 100", "main;a 500", "main;a;c 100", "main;b 300"]);
    // With a higher threshold even the call from a to c goes, and c is not reported.
    let map = diamond(101);
    let stacks = map.to_stack_format(&EventKind::Ir).unwrap();
    assert_eq!(stacks, vec!["main 100", "main;a 600", "main;b 300"]);
}

#[test]
fn cycles_terminate() {
    let parser = FlamegraphParser::new(None, String::new(), 0);
    let mut calls = CallCollector::new();
    parser.record_call(&mut calls, &func("main"), &func("a"), &ir(90));
    parser.record_call(&mut calls, &func("a"), &func("b"), &ir(80));
    parser.record_call(&mut calls, &func("b"), &func("a"), &ir(70));
    parser.record_call(&mut calls, &func("a"), &func("a"), &ir(5));
    let table = costs(&[("main", 100), ("a", 90), ("b", 80)]);
    let map = FlamegraphParser::assemble(CallgrindMap { map: table, sentinel_key: None }, calls);
    let stacks = map.to_stack_format(&EventKind::Ir).unwrap();
    assert_eq!(stacks, vec!["main 10", "main;a 10", "main;a;b 80"]);
}

#[test]
fn equal_costs_are_ordered_by_identifier() {
    let parser = FlamegraphParser::new(None, String::new(), 0);
    let mut calls = CallCollector::new();
    parser.record_call(&mut calls, &func("main"), &func("zeta"), &ir(10));
    parser.record_call(&mut calls, &func("main"), &func("alpha"), &ir(10));
    parser.record_call(&mut calls, &func("main"), &func("mid"), &ir(20));
    let table = costs(&[("main", 50), ("zeta", 10), ("alpha", 10), ("mid", 20)]);
    let map = FlamegraphParser::assemble(CallgrindMap { map: table, sentinel_key: None }, calls);
    let stacks = map.to_stack_format(&EventKind::Ir).unwrap();
    assert_eq!(stacks, vec!["main 10", "main;mid 20", "main;alpha 10", "main;zeta 10"]);
}

#[test]
fn several_roots_are_sorted() {
    let parser = FlamegraphParser::new(None, String::new(), 0);
    let mut calls = CallCollector::new();
    parser.record_call(&mut calls, &func("second"), &func("x"), &ir(1));
    parser.record_call(&mut calls, &func("first"), &func("x"), &ir(2));
    // "lonely" has a cost but calls nothing: it is no root. x is reported under "first" only,
    // so "second" keeps its whole cost.
    let table = costs(&[("second", 5), ("first", 7), ("x", 3), ("lonely", 4)]);
    let map = FlamegraphParser::assemble(CallgrindMap { map: table, sentinel_key: None }, calls);
    let stacks = map.to_stack_format(&EventKind::Ir).unwrap();
    assert_eq!(stacks, vec!["first 5", "first;x 2", "second 5"]);
}

#[test]
fn sentinel_is_the_only_root() {
    let sentinel = Sentinel::new("a");
    assert_eq!(sentinel.as_str(), "a");
    let parser = FlamegraphParser::new(Some(&sentinel), String::new(), 0);
    let mut calls = CallCollector::new();
    parser.record_call(&mut calls, &func("main"), &func("a"), &ir(600));
    parser.record_call(&mut calls, &func("a"), &func("c"), &ir(100));
    let table = costs(&[("main", 1000), ("a", 600), ("c", 100)]);
    let map = FlamegraphParser::assemble(
        CallgrindMap { map: table, sentinel_key: Some(func("a")) },
        calls,
    );
    let stacks = map.to_stack_format(&EventKind::Ir).unwrap();
    assert_eq!(stacks, vec!["a 500", "a;c 100"]);
}

#[test]
fn labels_show_files_and_objects() {
    let main = Id {
        file: Some(SourcePath::Rust("src/main.rs".to_string())),
        func: "main".to_string(),
        obj: Some(SourcePath::Absolute("/bin/bench".to_string())),
    };
    let callee = Id {
        file: Some(SourcePath::Unknown),
        func: "memcpy".to_string(),
        obj: Some(SourcePath::Unknown),
    };
    let parser = FlamegraphParser::new(None, String::new(), 0);
    let mut calls = CallCollector::new();
    parser.record_call(&mut calls, &main, &callee, &ir(4));
    let mut table = CostTable::new();
    table.add_metrics(&main, &ir(10));
    table.add_metrics(&callee, &ir(4));
    let map = FlamegraphParser::assemble(CallgrindMap { map: table, sentinel_key: None }, calls);
    let stacks = map.to_stack_format(&EventKind::Ir).unwrap();
    assert_eq!(
        stacks,
        vec!["src/main.rs:main [/bin/bench] 6", "src/main.rs:main [/bin/bench];memcpy 4"]
    );
}

#[test]
fn children_costing_more_than_the_call_give_zero() {
    let parser = FlamegraphParser::new(None, String::new(), 0);
    let mut calls = CallCollector::new();
    parser.record_call(&mut calls, &func("main"), &func("a"), &ir(10));
    parser.record_call(&mut calls, &func("a"), &func("b"), &ir(30));
    let table = costs(&[("main", 10), ("a", 10), ("b", 30)]);
    let map = FlamegraphParser::assemble(CallgrindMap { map: table, sentinel_key: None }, calls);
    let stacks = map.to_stack_format(&EventKind::Ir).unwrap();
    assert_eq!(stacks, vec!["main 0", "main;a 0", "main;a;b 30"]);
}

#[test]
fn repeated_calls_add_up() {
    let parser = FlamegraphParser::new(None, String::new(), 0);
    let mut calls = CallCollector::new();
    parser.record_call(&mut calls, &func("main"), &func("a"), &ir(10));
    parser.record_call(&mut calls, &func("main"), &func("a"), &ir(15));
    let table = costs(&[("main", 40), ("a", 25)]);
    let map = FlamegraphParser::assemble(CallgrindMap { map: table, sentinel_key: None }, calls);
    let stacks = map.to_stack_format(&EventKind::Ir).unwrap();
    assert_eq!(stacks, vec!["main 15", "main;a 25"]);
}

#[test]
fn adding_maps_sums_costs_and_calls() {
    let mut left = diamond(0);
    let right = diamond(0);
    left.add(&right);
    let stacks = left.to_stack_format(&EventKind::Ir).unwrap();
    assert_eq!(stacks, vec!["main 200", "main;a 1000", "main;a;c 200", "main;b 600"]);
    let mut empty = FlamegraphMap::default();
    empty.add(&right);
    // Roots stay those of the map added to.
    assert_eq!(empty.to_stack_format(&EventKind::Ir), Ok(vec![]));
}

fn cache_metrics() -> Metrics {
    let mut m = Metrics::new();
    for (kind, value) in [
        (EventKind::Ir, 100),
        (EventKind::Dr, 20),
        (EventKind::Dw, 10),
        (EventKind::I1mr, 5),
        (EventKind::D1mr, 3),
        (EventKind::D1mw, 2),
        (EventKind::ILmr, 1),
        (EventKind::DLmr, 1),
        (EventKind::DLmw, 0),
    ] {
        m.insert(kind, value);
    }
    m
}

#[test]
fn summary_of_cache_events() {
    let mut m = cache_metrics();
    assert!(m.can_summarize());
    assert_eq!(m.make_summary(), Ok(()));
    assert_eq!(m.metric_by_kind(EventKind::TotalRW), Some(130));
    assert_eq!(m.metric_by_kind(EventKind::L1hits), Some(120));
    assert_eq!(m.metric_by_kind(EventKind::LLhits), Some(8));
    assert_eq!(m.metric_by_kind(EventKind::RamHits), Some(2));
    assert_eq!(m.metric_by_kind(EventKind::EstimatedCycles), Some(230));
    assert_eq!(m.len(), 14);
    // A second summary changes nothing.
    assert_eq!(m.make_summary(), Ok(()));
    assert_eq!(m.metric_by_kind(EventKind::EstimatedCycles), Some(230));
    assert_eq!(m.len(), 14);
}

#[test]
fn summary_without_cache_events_fails() {
    let mut m = ir(5);
    assert!(!m.can_summarize());
    assert_eq!(m.make_summary(), Err(EventKind::Dr));
    assert_eq!(m.len(), 1);
    let mut none = Metrics::new();
    assert_eq!(none.make_summary(), Err(EventKind::Ir));
}

#[test]
fn map_summary_follows_the_first_entry() {
    // Without cache events in the first entry, nothing is summarized.
    let mut map = diamond(0);
    assert_eq!(map.make_summary(), Ok(()));
    assert!(map.to_stack_format(&EventKind::EstimatedCycles).is_err());

    // With cache events everywhere, every entry is summarized.
    let parser = FlamegraphParser::new(None, String::new(), 0);
    let mut calls = CallCollector::new();
    parser.record_call(&mut calls, &func("main"), &func("a"), &ir(10));
    let mut table = CostTable::new();
    table.add_metrics(&func("main"), &cache_metrics());
    table.add_metrics(&func("a"), &cache_metrics());
    let mut map = FlamegraphParser::assemble(CallgrindMap { map: table, sentinel_key: None }, calls);
    assert_eq!(map.make_summary(), Ok(()));
    // The call carries no estimate, so a's call cost is missing: it is not descended into.
    let stacks = map.to_stack_format(&EventKind::EstimatedCycles).unwrap();
    assert_eq!(stacks, vec!["main 230"]);

    // A later entry without cache events stops the summary.
    let mut table = CostTable::new();
    table.add_metrics(&func("main"), &cache_metrics());
    table.add_metrics(&func("a"), &ir(3));
    let mut map =
        FlamegraphParser::assemble(CallgrindMap { map: table, sentinel_key: None }, CallCollector::new());
    assert_eq!(map.make_summary(), Err(FlamegraphError::SummaryFailed(EventKind::Dr)));
}

#[test]
fn metrics_add_saturates_and_takes_over_new_events() {
    let mut a = ir(u64::MAX - 1);
    let mut b = ir(5);
    b.insert(EventKind::Dr, 7);
    a.add(&b);
    assert_eq!(a.metric_by_kind(EventKind::Ir), Some(u64::MAX));
    assert_eq!(a.metric_by_kind(EventKind::Dr), Some(7));
    assert_eq!(a.metric_by_kind(EventKind::Dw), None);
    let copy = a.duplicate();
    assert_eq!(copy.metric_by_kind(EventKind::Dr), Some(7));
}

#[test]
fn cost_tables_merge() {
    let mut t = costs(&[("a", 1), ("b", 2)]);
    let u = costs(&[("b", 3), ("c", 4)]);
    t.merge(&u);
    assert_eq!(t.len(), 3);
    assert_eq!(t.get(&func("b")).unwrap().metric_by_kind(EventKind::Ir), Some(5));
    assert_eq!(t.get(&func("c")).unwrap().metric_by_kind(EventKind::Ir), Some(4));
    assert!(t.get(&func("d")).is_none());
    assert!(t.contains_key(&func("a")));
    assert!(!t.is_empty());
}

#[test]
fn adding_does_not_depend_on_the_order() {
    let parser = FlamegraphParser::new(None, String::new(), 0);
    let mut calls = CallCollector::new();
    parser.record_call(&mut calls, &func("main"), &func("a"), &ir(7));
    parser.record_call(&mut calls, &func("main"), &func("d"), &ir(9));
    let table = costs(&[("main", 20), ("a", 7), ("d", 9)]);
    let other = FlamegraphParser::assemble(CallgrindMap { map: table, sentinel_key: None }, calls);

    let mut left = diamond(0);
    left.add(&other);
    let mut right = FlamegraphParser::assemble(
        CallgrindMap { map: costs(&[]), sentinel_key: None },
        CallCollector::new(),
    );
    right.add(&other);
    right.add(&diamond(0));
    // `right` has no roots of its own; compare the sums through `left`'s roots.
    let mut left2 = diamond(0);
    left2.add(&right);
    let mut doubled = diamond(0);
    doubled.add(&diamond(0));
    doubled.add(&other);
    assert_eq!(
        left2.to_stack_format(&EventKind::Ir).unwrap(),
        doubled.to_stack_format(&EventKind::Ir).unwrap()
    );
    assert_eq!(
        left.to_stack_format(&EventKind::Ir).unwrap(),
        vec!["main 104", "main;a 507", "main;a;c 100", "main;b 300", "main;d 9"]
    );
}

fn func_in(file: &str, name: &str) -> Id {
    Id { file: Some(SourcePath::Rust(file.to_string())), func: name.to_string(), obj: None }
}

#[test]
fn roots_and_equal_callees_follow_the_path_order() {
    let parser = FlamegraphParser::new(None, String::new(), 0);
    let mut calls = CallCollector::new();
    let r1 = func_in("a.rs", "main");
    let r2 = func_in("a/b.rs", "main");
    let x = func_in("x.rs", "x");
    parser.record_call(&mut calls, &r1, &func_in("a.rs", "g"), &ir(1));
    parser.record_call(&mut calls, &r2, &func_in("a/b.rs", "g"), &ir(1));
    parser.record_call(&mut calls, &x, &func_in("a.rs", "h"), &ir(2));
    parser.record_call(&mut calls, &x, &func_in("a/b.rs", "h"), &ir(2));
    let mut table = CostTable::new();
    for (id, cost) in [(&r1, 3), (&r2, 3), (&x, 4)] {
        table.add_metrics(id, &ir(cost));
    }
    let map = FlamegraphParser::assemble(CallgrindMap { map: table, sentinel_key: None }, calls);
    let stacks = map.to_stack_format(&EventKind::Ir).unwrap();
    assert_eq!(
        stacks,
        vec![
            "a/b.rs:main 2",
            "a/b.rs:main;a/b.rs:g 1",
            "a.rs:main 2",
            "a.rs:main;a.rs:g 1",
            "x.rs:x 0",
            "x.rs:x;a/b.rs:h 2",
            "x.rs:x;a.rs:h 2",
        ]
    );
}

#[test]
fn error_messages_name_the_missing_event() {
    assert_eq!(
        FlamegraphError::MissingEvent(EventKind::Dr).message(),
        "Failed creating flamegraph stack: Missing event type 'Dr'"
    );
    assert_eq!(
        FlamegraphError::SummaryFailed(EventKind::D1mr).message(),
        "Failed calculating summary events: Missing event type 'D1mr'"
    );
    assert_eq!(
        diamond(0).to_stack_format(&EventKind::Bc).unwrap_err().message(),
        "Failed creating flamegraph stack: Missing event type 'Bc'"
    );
}

#[test]
fn maps_compare_by_content() {
    let map = diamond(0);
    assert!(map == map.clone());
    assert!(map == diamond(0));
    assert!(map != diamond(101));
    assert!(FlamegraphMap::default() == FlamegraphMap::default());
    assert!(map != FlamegraphMap::default());
}

fn one_call(file: &str, table_order: bool) -> FlamegraphMap {
    let parser = FlamegraphParser::new(None, String::new(), 0);
    let mut calls = CallCollector::new();
    let main = func_in(file, "main");
    let g = func_in(file, "g");
    parser.record_call(&mut calls, &main, &g, &ir(1));
    let mut table = CostTable::new();
    if table_order {
        table.add_metrics(&main, &ir(3));
        table.add_metrics(&g, &ir(1));
    } else {
        table.add_metrics(&g, &ir(1));
        table.add_metrics(&main, &ir(3));
    }
    FlamegraphParser::assemble(CallgrindMap { map: table, sentinel_key: None }, calls)
}

#[test]
fn equal_maps_ignore_table_order_and_path_spelling() {
    assert!(one_call("a/b.rs", true) == one_call("a/b.rs", false));
    assert!(one_call("a/b.rs", true) == one_call("a//b.rs", false));
    assert!(one_call("a/b.rs", true) != one_call("./a/b.rs", true));
    assert!(one_call("./a/b.rs", true) == one_call("./a/./b.rs/", false));
    assert!(one_call("a/b.rs", true) != one_call("a.rs", true));
}

#[test]
fn zero_least_cost_keeps_every_call_and_larger_keeps_fewer() {
    let all = diamond(0).to_stack_format(&EventKind::Ir).unwrap();
    let some = diamond(100).to_stack_format(&EventKind::Ir).unwrap();
    let fewer = diamond(600).to_stack_format(&EventKind::Ir).unwrap();
    assert_eq!(all, vec!["main 100", "main;a 500", "main;a;c 100", "main;b 300"]);
    assert_eq!(some, vec!["main 100", "main;a 500", "main;a;c 100", "main;b 300"]);
    assert_eq!(fewer, vec!["main 400", "main;a 600"]);
}

#[test]
fn paths_are_shown_as_written() {
    let parser = FlamegraphParser::new(None, String::new(), 0);
    let mut calls = CallCollector::new();
    let main = func_in("a/", "main");
    let g = Id {
        file: Some(SourcePath::Relative("src//./g.rs".to_string())),
        func: "g".to_string(),
        obj: Some(SourcePath::Absolute("/usr/lib//x.so/".to_string())),
    };
    parser.record_call(&mut calls, &main, &g, &ir(1));
    let mut table = CostTable::new();
    table.add_metrics(&main, &ir(3));
    table.add_metrics(&g, &ir(1));
    let map = FlamegraphParser::assemble(CallgrindMap { map: table, sentinel_key: None }, calls);
    assert_eq!(
        map.to_stack_format(&EventKind::Ir).unwrap(),
        vec!["a/:main 2", "a/:main;src//./g.rs:g [/usr/lib//x.so/] 1"]
    );
}

#[test]
fn the_first_spelling_of_a_callee_is_kept() {
    let parser = FlamegraphParser::new(None, String::new(), 0);
    let mut calls = CallCollector::new();
    let main = func("main");
    parser.record_call(&mut calls, &main, &func_in("a//g.rs", "g"), &ir(1));
    parser.record_call(&mut calls, &main, &func_in("a/g.rs", "g"), &ir(2));
    let mut table = CostTable::new();
    table.add_metrics(&main, &ir(5));
    let map = FlamegraphParser::assemble(CallgrindMap { map: table, sentinel_key: None }, calls);
    assert_eq!(map.to_stack_format(&EventKind::Ir).unwrap(), vec!["main 2", "main;a//g.rs:g 3"]);
}

#[test]
fn a_duplicate_is_the_same_map() {
    let map = diamond(0);
    let copy = map.duplicate();
    assert!(copy == map);
    assert_eq!(copy.to_stack_format(&EventKind::Ir), map.to_stack_format(&EventKind::Ir));
}
