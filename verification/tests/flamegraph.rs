use std::cell::Cell;
use std::rc::Rc;

use stencil::flamegraph::{write_flame_graph, write_trace_for_testing};
use stencil::logging::Level;
use stencil::time::{Duration, Instant};
use stencil::{
    limit_entry_points, set_flame_graph_handler, Callsite, FlameGraph, GraphThreadData,
    SetConfigOutcome, Settings, Span,
};

type GraphCallback = Box<dyn Fn(&FlameGraph) -> Option<String>>;
type ChartCallback = Box<dyn Fn(&[Callsite]) -> Option<String>>;

/// One thread with its settings and its clock.
struct Thread {
    settings: Settings<GraphCallback, ChartCallback>,
    data: GraphThreadData<GraphCallback>,
    clock: u128,
}

impl Thread {
    fn new() -> Thread {
        Thread { settings: Settings::new(), data: GraphThreadData::new(), clock: 0 }
    }

    fn at(&mut self, nanos: u128) -> &mut Thread {
        self.clock = nanos;
        self
    }

    fn outln_with(&mut self, name: &'static str, callback: Option<GraphCallback>) -> Option<Span> {
        self.clock += 1000;
        let now = Instant::from_nanos(self.clock);
        Span::new(&self.settings, &mut self.data, name, "src", callback, now)
    }

    fn outln(&mut self, name: &'static str) -> Option<Span> {
        self.outln_with(name, None)
    }

    fn close(&mut self, span: Option<Span>) -> Option<String> {
        self.clock += 1000;
        let now = Instant::from_nanos(self.clock);
        let record = span.and_then(|s| s.close(&self.settings, &mut self.data, now));
        record.map(|r| {
            assert_eq!(r.level, Level::Warn);
            r.message
        })
    }
}

#[test]
fn test_tracing() {
    fn fib(t: &mut Thread, n: usize) -> usize {
        let span = t.outln("fib");
        let result = if is_small(t, n) { n } else { fib(t, n - 1) + fib(t, n - 2) };
        t.close(span);
        result
    }

    fn is_small(t: &mut Thread, n: usize) -> bool {
        let span = t.outln("is_small");
        let small = n <= 2;
        t.close(span);
        small
    }

    let it_ran = Rc::new(Cell::new(false));
    let ran = it_ran.clone();
    let mut t = Thread::new();
    set_flame_graph_handler(
        &mut t.settings,
        Box::new(move |traces: &FlameGraph| {
            let mut actual = String::new();
            let root = traces.root().unwrap();
            write_trace_for_testing(&mut actual, &root);
            assert_eq!(
                actual,
                "fib (1 calls) { is_small (1 calls); fib (2 calls) { is_small (2 calls); }}"
            );
            ran.set(true);
            None
        }),
    );

    fib(&mut t, 3);
    assert!(it_ran.get());
}

fn input(graph: &FlameGraph) -> Option<String> {
    assert!(graph.is_nested());
    graph.as_flame_graph_input()
}

#[test]
fn calls_are_lumped_together_with_their_total_time() {
    let mut t = Thread::new();
    set_flame_graph_handler(&mut t.settings, Box::new(input));
    let outer = t.at(0).outln("outer");
    let first = t.at(1000).outln("inner");
    assert_eq!(t.at(3000).close(first), None);
    let second = t.at(4000).outln("inner");
    let deepest = t.at(4100).outln("deepest");
    assert_eq!(t.at(4200).close(deepest), None);
    assert_eq!(t.at(5500).close(second), None);
    let text = t.at(10000).close(outer).unwrap();
    // 10000 ns in all, 2000 and 1500 ns of them in the inner calls, 100 ns in the deepest.
    assert_eq!(
        text,
        "outer src (1 calls) 6\nouter src (1 calls);inner src (2 calls) 3\nouter src (1 calls);inner src (2 calls);deepest src (1 calls) 0\n"
    );
}

#[test]
fn the_outermost_call_gives_name_and_duration() {
    let graph = FlameGraph::new();
    assert_eq!(graph.outermost_call(), "Empty call stack");
    assert_eq!(graph.total_duration(), Duration::from_nanos(0));
    assert_eq!(graph.as_flame_graph_input(), None);
    assert!(graph.is_empty());
    let mut t = Thread::new();
    set_flame_graph_handler(
        &mut t.settings,
        Box::new(|g| Some(format!("{} {}", g.outermost_call(), g.total_duration().nanos))),
    );
    let a = t.at(500).outln("a");
    let b = t.outln("b");
    t.close(b);
    assert_eq!(t.at(9500).close(a), Some("a 9000".to_string()));
}

#[test]
fn same_names_at_other_places_are_other_calls() {
    let mut graph = FlameGraph::new();
    let root = graph.push("root", "src:1", Instant::from_nanos(0));
    let a = graph.push("f", "src:2", Instant::from_nanos(0));
    graph.pop(a, Instant::from_nanos(5));
    let b = graph.push("f", "src:3", Instant::from_nanos(5));
    assert_ne!(a, b);
    graph.pop(b, Instant::from_nanos(6));
    let again = graph.push("f", "src:2", Instant::from_nanos(6));
    assert_eq!(again, a);
    graph.pop(again, Instant::from_nanos(7));
    graph.pop(root, Instant::from_nanos(9000));
    assert_eq!(
        graph.as_flame_graph_input().unwrap(),
        "root src:1 (1 calls) 8\nroot src:1 (1 calls);f src:2 (2 calls) 0\nroot src:1 (1 calls);f src:3 (1 calls) 0\n"
    );
}

#[test]
fn a_span_that_ends_too_early_gives_up_the_inner_ones() {
    let mut t = Thread::new();
    set_flame_graph_handler(&mut t.settings, Box::new(|g| Some(g.outermost_call().to_string())));
    let a = t.outln("a");
    let b = t.outln("b");
    assert_eq!(t.close(a), Some("a".to_string()));
    // No call is open, so there is nothing to hand out.
    assert_eq!(t.close(b), None);
    let c = t.outln("c");
    assert_eq!(t.close(c), Some("c".to_string()));
}

#[test]
fn a_span_that_is_not_open_ends_no_other_trace() {
    let mut t = Thread::new();
    set_flame_graph_handler(&mut t.settings, Box::new(|g| Some(g.outermost_call().to_string())));
    let a = t.outln("a");
    let b = t.outln("b");
    t.close(a);
    let c = t.outln("c");
    assert_eq!(t.close(b), None);
    assert_eq!(t.close(c), Some("c".to_string()));
    let mut graph = FlameGraph::new();
    let root = graph.push("root", "src", Instant::from_nanos(0));
    let inner = graph.push("inner", "src", Instant::from_nanos(0));
    assert!(graph.pop(inner, Instant::from_nanos(1)));
    assert!(!graph.pop(inner, Instant::from_nanos(2)));
    assert!(graph.pop(root, Instant::from_nanos(3)));
}

#[test]
fn a_call_without_its_own_time_is_not_nested() {
    let mut graph = FlameGraph::new();
    let a = graph.push("a", "src", Instant::from_nanos(0));
    let b = graph.push("b", "src", Instant::from_nanos(0));
    let c = graph.push("c", "src", Instant::from_nanos(0));
    graph.pop(c, Instant::from_nanos(7));
    // `b` is given up, though `c` was measured.
    graph.pop(a, Instant::from_nanos(9));
    assert_ne!(a, b);
    assert!(!graph.is_nested());
}

#[test]
fn an_earlier_reading_counts_as_no_time() {
    let mut graph = FlameGraph::new();
    let a = graph.push("a", "src", Instant::from_nanos(100));
    graph.pop(a, Instant::from_nanos(50));
    assert_eq!(graph.total_duration(), Duration::from_nanos(0));
}

#[test]
fn the_callback_of_a_span_comes_before_the_handler() {
    let mut t = Thread::new();
    let set = set_flame_graph_handler(&mut t.settings, Box::new(|_| Some("handler".to_string())));
    assert_eq!(set, SetConfigOutcome::NowSet);
    let again = set_flame_graph_handler(&mut t.settings, Box::new(|_| None));
    assert_eq!(again, SetConfigOutcome::AlreadyInit);
    let a = t.outln("a");
    let b = t.outln_with("b", Some(Box::new(|_| Some("first".to_string()))));
    let c = t.outln_with("c", Some(Box::new(|_| Some("second".to_string()))));
    t.close(c);
    t.close(b);
    assert_eq!(t.close(a), Some("first".to_string()));
    let d = t.outln("d");
    assert_eq!(t.close(d), Some("handler".to_string()));
}

#[test]
fn without_a_handler_the_graph_is_logged() {
    let mut t = Thread::new();
    let a = t.at(0).outln("a");
    let b = t.at(1000).outln("b");
    assert_eq!(t.at(4000).close(b), None);
    assert_eq!(
        t.at(9000).close(a),
        Some("a src (1 calls) 6\na src (1 calls);b src (1 calls) 3\n".to_string())
    );
}

#[test]
fn without_a_handler_calls_that_are_not_nested_are_logged_without_times() {
    let mut t = Thread::new();
    let a = t.at(0).outln("a");
    let _given_up = t.at(0).outln("b");
    let c = t.at(0).outln("c");
    t.at(5000).close(c);
    assert_eq!(
        t.at(9000).close(a),
        Some("a (1 calls) { b (0 calls) { c (1 calls); }}".to_string())
    );
}

#[test]
fn only_entry_points_begin_a_graph() {
    let mut t = Thread::new();
    limit_entry_points(&mut t.settings, vec!["main"]);
    assert!(t.outln("helper").is_none());
    let main = t.outln("main");
    let helper = t.outln("helper");
    assert!(main.is_some() && helper.is_some());
    t.close(helper);
    t.close(main);
    assert!(t.outln("helper").is_none());
}

#[test]
fn what_does_not_fit_is_told() {
    let mut data: GraphThreadData<GraphCallback> = GraphThreadData::new();
    let a = data.push("a", "src", None, Instant::from_nanos(0));
    assert!(data.fits(a, Instant::from_nanos(u128::MAX)));
    let b = data.push("b", "src", None, Instant::from_nanos(0));
    assert!(data.pop(b, Instant::from_nanos(u128::MAX), None::<&GraphCallback>).is_none());
    let again = data.push("b", "src", None, Instant::from_nanos(0));
    assert!(data.fits(again, Instant::from_nanos(0)));
    assert!(!data.fits(again, Instant::from_nanos(1)));
}

#[test]
fn times_add_up_to_the_outermost_call() {
    let mut graph = FlameGraph::new();
    let outer = graph.push("outer", "src", Instant::from_nanos(0));
    let inner = graph.push("inner", "src", Instant::from_nanos(1_000));
    let deepest = graph.push("deepest", "src", Instant::from_nanos(2_000));
    graph.pop(deepest, Instant::from_nanos(3_000));
    graph.pop(inner, Instant::from_nanos(5_000));
    graph.pop(outer, Instant::from_nanos(10_000));
    assert!(graph.is_nested());
    let text = graph.as_flame_graph_input().unwrap();
    let own: Vec<u128> =
        text.lines().map(|l| l.rsplit(' ').next().unwrap().parse().unwrap()).collect();
    assert_eq!(own, vec![6, 3, 1]);
    assert_eq!(own.iter().sum::<u128>(), graph.total_duration().as_micros());
}

#[test]
fn only_the_subtree_at_the_end_of_the_path_is_written() {
    let mut graph = FlameGraph::new();
    graph.push("root", "src", Instant::from_nanos(0));
    let a = graph.push("a", "src", Instant::from_nanos(0));
    let b = graph.push("b", "src", Instant::from_nanos(0));
    graph.pop(b, Instant::from_nanos(2_000));
    graph.pop(a, Instant::from_nanos(5_000));
    // The root was not measured, but nothing is asked of it.
    assert!(!graph.is_nested());
    let root = graph.root().unwrap();
    let child = graph.root().unwrap().children().remove(0);
    let mut text = String::from(">");
    let mut stack = Vec::new();
    write_flame_graph(&mut text, &mut stack);
    assert_eq!(text, ">");
    stack.push(root);
    stack.push(child);
    write_flame_graph(&mut text, &mut stack);
    assert_eq!(stack.len(), 2);
    assert_eq!(
        text,
        ">root src (0 calls);a src (1 calls) 3\nroot src (0 calls);a src (1 calls);b src (1 calls) 2\n"
    );
}
