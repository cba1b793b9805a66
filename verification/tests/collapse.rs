use stencil::collapse::{compute_shadow, get_all_parents, is_chartable};
use stencil::time::{Duration, SystemTime};
use stencil::{call_sites_to_flame_chart, Callsite};

fn site(name: &'static str, parent: Option<usize>, nanos: Option<u128>) -> Callsite {
    Callsite {
        name,
        loc: "src:7",
        start: SystemTime::from_nanos(0),
        end: nanos.map(Duration::from_nanos),
        start_delta: SystemTime::from_nanos(0),
        end_delta: nanos.map(Duration::from_nanos),
        parent,
        uuid: 0,
        depth: 0,
    }
}

#[test]
fn a_chart_has_a_line_for_each_event() {
    let stack = [
        site("a", None, Some(90_999)),
        site("b", Some(0), Some(20_000)),
        site("c", Some(1), Some(3_500)),
        site("b", Some(0), Some(10_000)),
        site("open", Some(0), None),
    ];
    assert!(is_chartable(&stack));
    assert_eq!(compute_shadow(&stack), vec![30, 3, 0, 0, 0]);
    assert_eq!(get_all_parents(&stack, 2), "a:src:7`0;b:src:7`1;c:src:7`2");
    assert_eq!(
        call_sites_to_flame_chart(&stack),
        "a:src:7`0 60\na:src:7`0;b:src:7`1 17\na:src:7`0;b:src:7`1;c:src:7`2 3\na:src:7`0;b:src:7`3 10\na:src:7`0;open:src:7`4 0\n"
    );
}

#[test]
fn an_empty_chart_has_no_lines() {
    assert!(is_chartable(&[]));
    assert_eq!(call_sites_to_flame_chart(&[]), "");
}

#[test]
fn parents_may_come_later() {
    let stack = [site("b", Some(1), Some(1_000)), site("a", None, Some(5_000))];
    assert!(is_chartable(&stack));
    assert_eq!(call_sites_to_flame_chart(&stack), "a:src:7`1;b:src:7`0 1\na:src:7`1 4\n");
}

#[test]
fn circles_and_missing_parents_are_not_chartable() {
    assert!(!is_chartable(&[site("a", Some(0), None)]));
    assert!(!is_chartable(&[site("a", Some(1), None), site("b", Some(0), None)]));
    assert!(!is_chartable(&[site("a", None, None), site("b", Some(2), None)]));
}

#[test]
fn sums_out_of_range_are_not_chartable() {
    let half = Duration::from_nanos(u128::MAX);
    assert_eq!(half.as_micros(), u128::MAX / 1000);
    let mut stack = vec![site("a", None, None)];
    for _ in 0..1000 {
        stack.push(site("b", Some(0), Some(u128::MAX)));
    }
    assert!(is_chartable(&stack));
    stack.push(site("b", Some(0), Some(u128::MAX)));
    assert!(!is_chartable(&stack));
}

#[test]
fn counts_add_up_to_the_time_of_the_span() {
    let stack = [
        site("a", None, Some(10_000)),
        site("b", Some(0), Some(4_000)),
        site("c", Some(1), Some(1_000)),
    ];
    let text = call_sites_to_flame_chart(&stack);
    let counts: Vec<u128> =
        text.lines().map(|l| l.rsplit(' ').next().unwrap().parse().unwrap()).collect();
    assert_eq!(counts, vec![6, 3, 1]);
}

#[test]
fn children_that_took_longer_leave_nothing() {
    let stack = [site("a", None, Some(3_000)), site("b", Some(0), Some(4_000))];
    assert!(is_chartable(&stack));
    assert_eq!(call_sites_to_flame_chart(&stack), "a:src:7`0 0\na:src:7`0;b:src:7`1 4\n");
}
