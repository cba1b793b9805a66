use std::cell::Cell;
use std::rc::Rc;

use stencil::flamechart::{IndexRef, CAPACITY};
use stencil::logging::{Level, LogRecord};
use stencil::time::{Duration, SystemTime};
use stencil::{
    limit_entry_points, outline, outline_with, set_flame_chart_handler,
    set_flame_chart_min_duration, Callsite, FlameGraph, SetConfigOutcome, Settings,
    StencilThreadData, Until,
};

type ChartCallback = Box<dyn Fn(&[Callsite]) -> Option<String>>;
type GraphCallback = Box<dyn Fn(&FlameGraph) -> Option<String>>;

/// One thread with its settings and its clock.
struct Thread {
    settings: Settings<GraphCallback, ChartCallback>,
    data: StencilThreadData<ChartCallback>,
    clock: i128,
}

impl Thread {
    fn new() -> Thread {
        Thread { settings: Settings::new(), data: StencilThreadData::new(), clock: 0 }
    }

    fn now(&mut self) -> SystemTime {
        self.clock += 1000;
        SystemTime::from_nanos(self.clock)
    }

    fn outln(&mut self, name: &'static str) -> Option<Until> {
        let now = self.now();
        outline(&self.settings, &mut self.data, name, "here", now)
    }

    fn outln_with(&mut self, name: &'static str, callback: ChartCallback) -> Option<Until> {
        let now = self.now();
        outline_with(&self.settings, &mut self.data, name, "here", now, callback)
    }

    fn close(&mut self, until: Option<Until>) -> Vec<LogRecord> {
        let now = self.now();
        let mut log = Vec::new();
        if let Some(u) = until {
            let closing = u.close(&self.settings, &mut self.data, now);
            log.extend(closing.log);
            if let Some(complete) = closing.complete {
                let handler = self.settings.flame_chart_handler.get();
                log.extend(complete.report(handler, &|_: &[Callsite]| None));
            }
        }
        log
    }
}

fn shape(items: &[Callsite]) -> Vec<(Option<char>, Option<usize>)> {
    items.iter().map(|i| (i.name().chars().last(), i.parent_site_index())).collect()
}

#[test]
fn simple() {
    let ran = Rc::new(Cell::new(false));
    let seen = ran.clone();
    let mut t = Thread::new();
    let a = t.outln_with(
        "A",
        Box::new(move |items| {
            assert_eq!(
                shape(items),
                vec![(Some('A'), None), (Some('B'), Some(0)), (Some('C'), Some(1))]
            );
            seen.set(true);
            None
        }),
    );
    let b = t.outln("B");
    let c = t.outln("C");
    t.close(c);
    t.close(b);
    t.close(a);
    assert!(ran.get());
}

#[test]
fn multiple_children() {
    let ran = Rc::new(Cell::new(false));
    let seen = ran.clone();
    let mut t = Thread::new();
    let a = t.outln_with(
        "A",
        Box::new(move |items| {
            assert_eq!(
                shape(items),
                vec![
                    (Some('A'), None),
                    (Some('B'), Some(0)),
                    (Some('C'), Some(0)),
                    (Some('D'), Some(2))
                ]
            );
            seen.set(true);
            None
        }),
    );
    let b = t.outln("B");
    t.close(b);
    let c = t.outln("C");
    let d = t.outln("D");
    t.close(d);
    t.close(c);
    t.close(a);
    assert!(ran.get());
}

#[test]
fn no_drop() {
    let ran = Rc::new(Cell::new(false));
    let seen = ran.clone();
    let mut t = Thread::new();
    let top = t.outln_with(
        "Top-level",
        Box::new(move |items| {
            assert_eq!(items.len(), CAPACITY);
            let max_depth = items.iter().map(|item| item.depth).fold(0, |a, b| if a > b { a } else { b });
            assert_eq!(max_depth, CAPACITY / 2);
            seen.set(true);
            None
        }),
    );
    let mut container = vec![];
    for _ in 0..(CAPACITY * 2) {
        container.push(t.outln("stacked"));
    }
    while let Some(until) = container.pop() {
        t.close(until);
    }
    for _ in 0..(CAPACITY * 2) {
        container.push(t.outln("stacked"));
    }
    for until in container {
        t.close(until);
    }
    t.close(top);
    assert!(ran.get());
}

#[test]
fn generations() {
    let mut t = Thread::new();
    assert_eq!(t.data.generation(), 0);
    let a = t.outln("A");
    let b = t.outln("B");
    t.close(b);
    t.close(a);
    assert_eq!(t.data.generation(), 1);
    let c = t.outln("C");
    assert_eq!(t.data.generation(), 1);
    t.close(c);
    assert_eq!(t.data.generation(), 2);
}

#[test]
fn depth_fan() {
    let layer: usize = 4;
    let ran = Rc::new(Cell::new(false));
    let seen = ran.clone();
    let mut t = Thread::new();
    let top = t.outln_with(
        "Top-level",
        Box::new(move |items| {
            let a_ct = layer;
            let b_ct = layer * layer;
            let c_ct = layer * layer * layer;
            let remainder = CAPACITY - (a_ct + b_ct + c_ct + 1);
            let named = |name: &str| items.iter().filter(|item| item.name() == name).count();
            let below = |name: &str| {
                items
                    .iter()
                    .filter_map(|item| {
                        item.parent_site_index()
                            .and_then(|parent| items.get(parent).filter(|p| p.name() == name))
                    })
                    .count()
            };
            assert_eq!(named("Top-level"), 1);
            assert_eq!(named("a"), a_ct);
            assert_eq!(named("b"), b_ct);
            assert_eq!(named("c"), c_ct);
            assert_eq!(named("inner"), remainder);
            assert_eq!(items.iter().filter(|item| item.parent_site_index().is_none()).count(), 1);
            assert_eq!(below("Top-level"), a_ct);
            assert_eq!(below("a"), b_ct);
            assert_eq!(below("b"), c_ct);
            assert_eq!(below("c"), remainder);
            seen.set(true);
            None
        }),
    );
    for _ in 0..layer {
        let a = t.outln("a");
        for _ in 0..layer {
            let b = t.outln("b");
            for _ in 0..layer {
                let c = t.outln("c");
                for _ in 0..CAPACITY {
                    let inner = t.outln("inner");
                    t.close(inner);
                }
                t.close(c);
            }
            t.close(b);
        }
        t.close(a);
    }
    t.close(top);
    assert!(ran.get());
}

/// The level and the text of each record.
fn said(log: &[LogRecord]) -> Vec<(Level, &str)> {
    log.iter().map(|r| (r.level, r.message.as_str())).collect()
}

fn names(items: &[Callsite]) -> String {
    items.iter().map(|i| i.name()).collect::<Vec<_>>().join(",")
}

#[test]
fn the_events_tell_their_names_places_and_times() {
    let seen = Rc::new(Cell::new(false));
    let flag = seen.clone();
    let mut t = Thread::new();
    let a = t.outln_with(
        "A",
        Box::new(move |items| {
            assert_eq!(items[1].name(), "B");
            assert_eq!(items[1].loc(), "here");
            // The times are deltas against the oldest parent.
            assert_eq!(items[0].start_time(), &SystemTime::from_nanos(0));
            assert_eq!(items[0].end_time(), Some(&Duration::from_nanos(3000)));
            assert_eq!(items[1].start_time(), &SystemTime::from_nanos(1000));
            assert_eq!(items[1].end_time(), Some(&Duration::from_nanos(2000)));
            assert_eq!(items[1].parent_site_index(), Some(0));
            flag.set(true);
            None
        }),
    );
    let b = t.outln("B");
    t.close(b);
    t.close(a);
    assert!(seen.get());
}

#[test]
fn a_clock_that_was_set_back_leaves_no_end() {
    let mut t = Thread::new();
    let a = t.outln_with("A", Box::new(|items| Some(format!("{:?}", items[0].end_time()))));
    t.clock = -5000;
    assert_eq!(said(&t.close(a)), vec![(Level::Warn, "None")]);
}

#[test]
fn every_call_is_a_separate_event() {
    let mut t = Thread::new();
    let a = t.outln_with("A", Box::new(|items| Some(format!("{}", items.len()))));
    for _ in 0..100 {
        let b = t.outln("B");
        t.close(b);
    }
    assert_eq!(said(&t.close(a)), vec![(Level::Warn, "101")]);
}

#[test]
fn the_first_callback_of_a_trace_counts() {
    let mut t = Thread::new();
    set_flame_chart_handler(&mut t.settings, Box::new(|_| Some("handler".to_string())));
    let a = t.outln("A");
    let b = t.outln_with("B", Box::new(|_| Some("first".to_string())));
    let c = t.outln_with("C", Box::new(|_| Some("second".to_string())));
    assert_eq!(said(&t.close(c)), vec![]);
    assert_eq!(said(&t.close(b)), vec![]);
    assert_eq!(said(&t.close(a)), vec![(Level::Warn, "first")]);
    let d = t.outln("D");
    assert_eq!(said(&t.close(d)), vec![(Level::Warn, "handler")]);
}

#[test]
fn a_handler_that_says_nothing_logs_nothing() {
    let mut t = Thread::new();
    let first = set_flame_chart_handler(&mut t.settings, Box::new(|_| None));
    let second = set_flame_chart_handler(&mut t.settings, Box::new(|_| Some("late".to_string())));
    assert_eq!(first, SetConfigOutcome::NowSet);
    assert_eq!(second, SetConfigOutcome::AlreadyInit);
    let a = t.outln("A");
    assert_eq!(said(&t.close(a)), vec![]);
}

#[test]
fn without_a_handler_the_raw_trace_is_logged() {
    let settings: Settings<GraphCallback, ChartCallback> = Settings::new();
    let mut data: StencilThreadData<ChartCallback> = StencilThreadData::new();
    let now = SystemTime::from_nanos(0);
    let a = outline(&settings, &mut data, "A", "here", now).unwrap();
    let complete = a.close(&settings, &mut data, now).complete.unwrap();
    let log = complete.report(None::<&ChartCallback>, &|items: &[Callsite]| Some(names(items)));
    assert_eq!(
        said(&log),
        vec![(Level::Warn, "No trace handler registered - Raw Trace : 'A'")]
    );
    let b = outline(&settings, &mut data, "B", "here", now).unwrap();
    let complete = b.close(&settings, &mut data, now).complete.unwrap();
    let log = complete.report(None::<&ChartCallback>, &|_: &[Callsite]| None);
    assert_eq!(
        said(&log),
        vec![(
            Level::Warn,
            "No trace handler registered - Raw Trace : 'Trace Serialization Error'"
        )]
    );
}

#[test]
fn short_spans_are_dropped() {
    let mut t = Thread::new();
    let made = set_flame_chart_min_duration(&mut t.settings, Duration::from_nanos(2500));
    assert_eq!(made, SetConfigOutcome::NowSet);
    let again = set_flame_chart_min_duration(&mut t.settings, Duration::from_nanos(0));
    assert_eq!(again, SetConfigOutcome::AlreadyInit);
    let a = t.outln_with("A", Box::new(|items| Some(names(items))));
    let short = t.outln("short");
    t.close(short);
    let long = t.outln("long");
    let within = t.outln("within");
    t.close(within);
    t.close(long);
    assert_eq!(said(&t.close(a)), vec![(Level::Warn, "A,long")]);
}

#[test]
fn only_entry_points_begin_a_trace() {
    let mut t = Thread::new();
    assert_eq!(limit_entry_points(&mut t.settings, vec!["main", "test"]), SetConfigOutcome::NowSet);
    assert_eq!(limit_entry_points(&mut t.settings, vec!["other"]), SetConfigOutcome::AlreadyInit);
    assert!(t.outln("other").is_none());
    let a = t.outln_with("test", Box::new(|items| Some(names(items))));
    let b = t.outln("other");
    assert!(a.is_some() && b.is_some());
    t.close(b);
    assert_eq!(said(&t.close(a)), vec![(Level::Warn, "test,other")]);
}

#[test]
fn a_guard_of_a_past_trace_closes_nothing() {
    let mut t = Thread::new();
    let a = t.outln_with("A", Box::new(|_| None));
    let b = t.outln("B");
    t.close(a);
    let c = t.outln("C");
    let d = t.outln("D");
    let log = t.close(b);
    assert_eq!(
        said(&log),
        vec![(
            Level::Error,
            "Trace desynced - dropped guard IndexRef { index: 1, generation: 0, uuid: 1 } in generation 1"
        )]
    );
    assert_eq!(t.data.generation(), 1);
    t.close(d);
    t.close(c);
    assert_eq!(t.data.generation(), 2);
    assert_eq!(t.data.uuid(), 4);
}

#[test]
fn a_guard_of_an_event_that_gave_way_closes_nothing() {
    let lost = IndexRef { index: 7, generation: 0, uuid: 123 };
    let mut t = Thread::new();
    let a = t.outln_with("A", Box::new(|items| Some(names(items))));
    let closing = t.data.pop(&lost, SystemTime::from_nanos(0), None);
    assert_eq!(said(&closing.log), vec![]);
    assert!(closing.complete.is_none());
    assert_eq!(said(&t.close(a)), vec![(Level::Warn, "A")]);
}

#[test]
fn events_beyond_the_capacity_are_discarded() {
    let mut t = Thread::new();
    let a = t.outln_with("A", Box::new(|items| Some(format!("{}", items.len()))));
    let deep = t.outln("deep");
    for _ in 0..CAPACITY {
        let b = t.outln("B");
        t.close(b);
    }
    t.close(deep);
    // One of the inner events gives way to this one.
    let c = t.outln("C");
    assert!(c.is_some());
    t.close(c);
    let log = t.close(a);
    assert_eq!(
        said(&log),
        vec![
            (
                Level::Error,
                "Discarded one or more trace items after exceeding capactity of 100000"
            ),
            (Level::Warn, "100000"),
        ]
    );
}

const DISCARDED: &str = "Discarded one or more trace items after exceeding capactity of 100000";

#[test]
fn a_deeper_trace_before_does_not_matter() {
    let mut t = Thread::new();
    let a = t.outln_with("A", Box::new(|_| None));
    let b = t.outln("B");
    let c = t.outln("C");
    t.close(c);
    t.close(b);
    t.close(a);
    let top = t.outln_with("top", Box::new(|items| Some(format!("{}", items.len()))));
    for _ in 1..CAPACITY {
        let leaf = t.outln("leaf");
        assert!(leaf.is_some());
        t.close(leaf);
    }
    assert!(t.outln("leaf").is_none());
    let log = t.close(top);
    // The span that got no event is reported.
    assert_eq!(said(&log), vec![(Level::Error, DISCARDED), (Level::Warn, "100000")]);
    let again = t.outln_with("again", Box::new(|items| Some(names(items))));
    assert_eq!(said(&t.close(again)), vec![(Level::Warn, "again")]);
}

#[test]
fn a_deeper_span_that_was_dropped_does_not_matter() {
    let mut t = Thread::new();
    set_flame_chart_min_duration(&mut t.settings, Duration::from_nanos(2500));
    let top = t.outln_with("top", Box::new(|items| Some(format!("{}", items.len()))));
    let b = t.outln("B");
    let c = t.outln("C");
    t.close(c);
    t.close(b);
    for _ in 1..CAPACITY - 1 {
        let leaf = t.outln("leaf");
        t.clock += 10_000;
        t.close(leaf);
    }
    let leaf = t.outln("leaf");
    assert!(leaf.is_none());
    assert_eq!(said(&t.close(top)), vec![(Level::Error, DISCARDED), (Level::Warn, "100000")]);
}

#[test]
fn dropping_after_an_event_gave_way_keeps_guards_and_parents() {
    let mut t = Thread::new();
    set_flame_chart_min_duration(&mut t.settings, Duration::from_nanos(2500));
    let top = t.outln_with(
        "top",
        Box::new(|items| {
            for (i, item) in items.iter().enumerate() {
                match item.parent_site_index() {
                    Some(p) => assert_eq!(items[p].depth + 1, item.depth),
                    None => assert_eq!(i, 0),
                }
            }
            let middle = items.iter().position(|i| i.name() == "middle").unwrap();
            let deep = items.iter().filter(|i| i.name() == "deep").count();
            assert!(items
                .iter()
                .filter(|i| i.name() == "deep")
                .all(|i| i.parent_site_index() == Some(middle)));
            Some(format!("{} {} {:?}", items.len(), deep, items[middle].end_time().is_some()))
        }),
    );
    let middle = t.outln("middle");
    for _ in 2..CAPACITY {
        let deep = t.outln("deep");
        t.clock += 10_000;
        t.close(deep);
    }
    t.close(middle);
    // An inner event gives way to this one, which is then too short itself.
    let short = t.outln("short");
    assert!(short.is_some());
    t.close(short);
    let last = t.outln("last");
    assert!(last.is_some());
    t.clock += 10_000;
    t.close(last);
    let expected = format!("{} {} true", CAPACITY, CAPACITY - 3);
    assert_eq!(said(&t.close(top)), vec![(Level::Error, DISCARDED), (Level::Warn, expected.as_str())]);
}

#[test]
fn the_children_of_a_dropped_event_go_to_its_parent() {
    let mut t = Thread::new();
    set_flame_chart_min_duration(&mut t.settings, Duration::from_nanos(2500));
    let a = t.outln_with("A", Box::new(|items| Some(format!("{:?}", shape(items)))));
    let b = t.outln("B");
    let c = t.outln("C");
    t.clock -= 500;
    // The guards are closed in the wrong order.
    t.close(b);
    t.clock += 10_000;
    t.close(c);
    assert_eq!(
        said(&t.close(a)),
        vec![(Level::Warn, "[(Some('A'), None), (Some('C'), Some(0))]")]
    );
}

#[test]
fn an_open_span_never_loses_its_guard() {
    let mut t = Thread::new();
    set_flame_chart_min_duration(&mut t.settings, Duration::from_nanos(2500));
    let top = t.outln_with(
        "top",
        Box::new(|items| {
            let open = items.iter().position(|i| i.name() == "open").unwrap();
            let ended = items[open].end_time().is_some();
            let inside = items.iter().find(|i| i.name() == "inside").unwrap();
            let short = items.iter().filter(|i| i.name() == "short").count();
            Some(format!(
                "{} {} {} {}",
                items.len(),
                ended,
                inside.parent_site_index() == Some(open),
                short
            ))
        }),
    );
    let outer = t.outln("outer");
    let inner = t.outln("inner");
    for _ in 4..CAPACITY {
        let leaf = t.outln("leaf");
        t.clock += 10_000;
        t.close(leaf);
    }
    t.close(inner);
    t.close(outer);
    // The last event with room is that of an open span, and the next one takes a leaf's place.
    let open = t.outln("open");
    let short = t.outln("short");
    assert!(short.is_some());
    t.close(short);
    // The event of the open span was moved when the short one was dropped.
    let inside = t.outln("inside");
    t.clock += 10_000;
    t.close(inside);
    t.close(open);
    let expected = format!("{} true true 0", CAPACITY);
    assert_eq!(said(&t.close(top)), vec![(Level::Error, DISCARDED), (Level::Warn, expected.as_str())]);
}

#[test]
fn records_come_before_the_trace_is_handed_out() {
    let ran = Rc::new(Cell::new(false));
    let seen = ran.clone();
    let mut t = Thread::new();
    let a = t.outln_with(
        "A",
        Box::new(move |_| {
            seen.set(true);
            Some("said".to_string())
        }),
    );
    for _ in 0..CAPACITY {
        let b = t.outln("B");
        t.close(b);
    }
    let now = t.now();
    let closing = a.unwrap().close(&t.settings, &mut t.data, now);
    assert_eq!(said(&closing.log), vec![(Level::Error, DISCARDED)]);
    assert!(!ran.get());
    assert_eq!(t.data.generation(), 1);
    let complete = closing.complete.unwrap();
    assert_eq!(complete.events.len(), CAPACITY);
    let log = complete.report(None::<&ChartCallback>, &|_: &[Callsite]| None);
    assert!(ran.get());
    assert_eq!(said(&log), vec![(Level::Warn, "said")]);
}

#[test]
fn times_can_be_dated_from_a_root() {
    let site = Callsite {
        name: "A",
        loc: "here",
        start: SystemTime::from_nanos(-5),
        end: Some(Duration::from_nanos(12)),
        start_delta: SystemTime::from_nanos(0),
        end_delta: None,
        parent: None,
        uuid: 0,
        depth: 0,
    };
    let dated = site.dated_from(&SystemTime::from_nanos(-8));
    assert_eq!(dated.start_time(), &SystemTime::from_nanos(3));
    assert_eq!(dated.end_time(), Some(&Duration::from_nanos(15)));
    let later = site.dated_from(&SystemTime::from_nanos(9));
    assert_eq!(later.start_time(), &SystemTime::from_nanos(-14));
    assert_eq!(later.end_time(), None);
}
