//! What holds of flame graphs as a whole.

use vstd::prelude::*;
use vstd::std_specs::cmp::PartialEqSpec;

use crate::collapse::together;
use crate::flamegraph::{
    at_or_below, children_text, frame_text, graph_callable, graph_closing, graph_logs,
    graph_reports, header_text, inner_nanos, lemma_below_child, lemma_stack_grows, nanos_at,
    nested, nested_below, numbers, own_nanos, path_line, refuses, short_children_text, short_text,
    subtree_text, within, CallSite, FlameGraph, GraphState, Measurement, Nodes, StackFrame,
};
use crate::logging::{text_of, warning, Level, RecordView};
use crate::text::{
    decimal, interleaved, law_decimal_reads_back, law_joining_writes_all, law_numerals_are_unique,
    listed, numeral,
};
use crate::time::{Duration, Instant};
use crate::vec_trie::{
    children_among, lemma_children_among, lemma_children_same, link, Index, Visitor,
};

verus! {

/// What is measured before the first call.
pub open spec fn nothing() -> Measurement {
    Measurement { duration: Duration { nanos: 0 }, num_invocations: 0 }
}

impl GraphState {
    /// Whether the nodes form one tree without equal siblings, and the open calls lie along one
    /// path from the root.
    pub open spec fn sound(self) -> bool {
        &&& self.nodes.rooted()
        &&& self.nodes.distinct_siblings()
        &&& self.stacked()
    }

    /// Until when the open call at position `k` of the stack is known to have made no further
    /// call: until the next inner open call began, or else until `clock`.
    pub open spec fn until(self, k: int, clock: Instant) -> int {
        if k + 1 < self.stack.len() {
            self.stack[k + 1].start.nanos as int
        } else {
            clock.nanos as int
        }
    }

    /// Whether the calls made from the open call at position `k` of the stack, and from earlier
    /// calls at its node, took no longer than these calls.
    pub open spec fn covered(self, k: int, clock: Instant) -> bool {
        let i = self.stack[k].index.position as int;
        &&& self.stack[k].start.nanos <= self.until(k, clock)
        &&& inner_nanos(self.nodes, i) <= self.nodes.values[i].duration.nanos + self.until(k, clock)
            - self.stack[k].start.nanos
    }

    /// Whether no call at node `i` is open.
    pub open spec fn at_rest(self, i: int) -> bool {
        forall|k: int|
            0 <= k < self.stack.len() ==> (#[trigger] self.stack[k]).index.position != i
    }

    /// Whether no reading of the clock was later than `clock`, and no call took less time than
    /// the calls that it made.
    pub open spec fn timely(self, clock: Instant) -> bool {
        &&& forall|k: int| 0 <= k < self.stack.len() ==> #[trigger] self.covered(k, clock)
        &&& forall|i: int|
            0 <= i < self.nodes.len() && self.at_rest(i) ==> #[trigger] own_nanos(self.nodes, i)
                >= 0
    }
}

/// A list that ends with `i` has the time of `i` more.
proof fn lemma_nanos_push(nodes: Nodes, list: Seq<int>, i: int)
    ensures
        nanos_at(nodes, list.push(i)) == nanos_at(nodes, list)
            + nodes.values[i].duration.nanos as nat,
{
    assert(list.push(i).drop_last() =~= list);
}

/// Another value at a node changes the time of the children of its parent by the difference, and
/// of no other node's.
proof fn lemma_inner_with_value(nodes: Nodes, i: int, value: Measurement, p: int, n: nat)
    requires
        nodes.rooted(),
        0 <= i < nodes.len(),
        n <= nodes.len(),
    ensures
        nanos_at(nodes.with_value(i, value), children_among(nodes.parents, p, n)) == nanos_at(
            nodes,
            children_among(nodes.parents, p, n),
        ) + if i < n && nodes.parents[i] == Some(p) {
            value.duration.nanos - nodes.values[i].duration.nanos
        } else {
            0
        },
    decreases n,
{
    if n > 0 {
        let rest = children_among(nodes.parents, p, (n - 1) as nat);
        lemma_inner_with_value(nodes, i, value, p, (n - 1) as nat);
        lemma_nanos_push(nodes, rest, n - 1);
        lemma_nanos_push(nodes.with_value(i, value), rest, n - 1);
    }
}

/// A further node changes no time among the nodes before it.
proof fn lemma_inner_with_node(
    nodes: Nodes,
    parent: Option<int>,
    key: CallSite,
    value: Measurement,
    p: int,
    n: nat,
)
    requires
        nodes.rooted(),
        n <= nodes.len(),
    ensures
        nanos_at(
            nodes.with_node(parent, key, value),
            children_among(nodes.with_node(parent, key, value).parents, p, n),
        ) == nanos_at(nodes, children_among(nodes.parents, p, n)),
    decreases n,
{
    if n > 0 {
        let rest = children_among(nodes.parents, p, (n - 1) as nat);
        let more = nodes.with_node(parent, key, value);
        lemma_children_same(nodes.parents, more.parents, p, (n - 1) as nat);
        lemma_inner_with_node(nodes, parent, key, value, p, (n - 1) as nat);
        lemma_nanos_push(nodes, rest, n - 1);
        lemma_nanos_push(more, rest, n - 1);
    }
}

/// A further node without time changes the time of no node's children.
proof fn lemma_inner_with_new_node(
    nodes: Nodes,
    parent: Option<int>,
    key: CallSite,
    value: Measurement,
    p: int,
)
    requires
        nodes.rooted(),
        value.duration.nanos == 0,
    ensures
        inner_nanos(nodes.with_node(parent, key, value), p) == inner_nanos(nodes, p),
{
    let more = nodes.with_node(parent, key, value);
    lemma_inner_with_node(nodes, parent, key, value, p, nodes.len());
    let rest = children_among(more.parents, p, nodes.len());
    lemma_nanos_push(more, rest, nodes.len() as int);
}

/// Nodes that do not exist have no children.
proof fn lemma_no_children(parents: Seq<Option<int>>, p: int, n: nat)
    requires
        n <= parents.len(),
        forall|i: int| 0 <= i < n ==> #[trigger] parents[i] != Some(p),
    ensures
        children_among(parents, p, n).len() == 0,
    decreases n,
{
    if n > 0 {
        lemma_no_children(parents, p, (n - 1) as nat);
        assert(parents[n - 1] != Some(p));
    }
}

/// Making a call keeps the nodes one tree without equal siblings, and the open calls along one
/// path.
pub proof fn law_calling_keeps_the_tree(
    state: GraphState,
    site: CallSite,
    now: Instant,
    next: GraphState,
    index: Index,
)
    requires
        state.sound(),
        state.stack.len() == 0 ==> state.nodes.len() == 0,
        state.pushes(site, now, next, index),
    ensures
        next.sound(),
{
    let parent = state.innermost();
    if state.stack.len() > 0 {
        assert(state.follows(state.stack.len() - 1));
    }
    assert forall|k: int| 0 <= k < next.stack.len() implies #[trigger] next.follows(k) by {
        if k < state.stack.len() {
            assert(state.follows(k));
        }
    }
    if !state.nodes.has_child(parent, site) {
        assert forall|i: int, j: int|
            0 <= i < j < next.nodes.len() && next.nodes.parents[i] == next.nodes.parents[j] implies !(
        #[trigger] next.nodes.keys[i]).eq_spec(#[trigger] &next.nodes.keys[j]) by {
            assert(next.nodes.keys[i] == state.nodes.keys[i]);
            if j < state.nodes.len() {
                assert(next.nodes.keys[j] == state.nodes.keys[j]);
            } else {
                assert(!state.nodes.is_child(parent, site, i));
            }
        }
    }
}

/// Ending a call keeps the nodes one tree without equal siblings, and the open calls along one
/// path.
pub proof fn law_returning_keeps_the_tree(state: GraphState, index: Index, now: Instant, next: GraphState)
    requires
        state.sound(),
        state.pops(index, now, next),
    ensures
        next.sound(),
{
    if state.is_open(index) {
        let k = choose|k: int| #[trigger]
            state.open_at(index, k) && next == state.closed_at(k, now);
        assert(state.follows(k));
    }
    assert forall|k: int| 0 <= k < next.stack.len() implies #[trigger] next.follows(k) by {
        assert(state.follows(k));
    }
}

/// Making a call takes no time from anybody: if no call took less time than the calls that it
/// made, that stays so, as long as the clock does not go back.
pub proof fn law_calling_keeps_the_time(
    state: GraphState,
    clock: Instant,
    site: CallSite,
    now: Instant,
    next: GraphState,
    index: Index,
)
    requires
        state.sound(),
        state.stack.len() == 0 ==> state.nodes.len() == 0,
        state.timely(clock),
        clock.nanos <= now.nanos,
        state.pushes(site, now, next, index),
    ensures
        next.timely(now),
{
    law_calling_keeps_the_tree(state, site, now, next, index);
    let parent = state.innermost();
    let top = state.stack.len() as int;
    let fresh = !state.nodes.has_child(parent, site);
    assert forall|p: int| 0 <= p < state.nodes.len() implies #[trigger] inner_nanos(next.nodes, p)
        == inner_nanos(state.nodes, p) by {
        if fresh {
            lemma_inner_with_new_node(state.nodes, parent, site, nothing(), p);
        }
    }
    let i = index.position as int;
    // The node of the new call was at rest, and a new one has no children.
    assert(own_nanos(next.nodes, i) >= 0) by {
        if fresh {
            assert forall|j: int| 0 <= j < next.nodes.len() implies #[trigger] next.nodes.parents[j] != Some(i) by {
            }
            lemma_no_children(next.nodes.parents, i, next.nodes.len());
        } else {
            assert(next.follows(top));
            assert forall|k: int| 0 <= k < state.stack.len() implies (
            #[trigger] state.stack[k]).index.position != i by {
                assert(next.stack[k] == state.stack[k]);
                lemma_stack_grows(next, k, top);
            }
            assert(state.at_rest(i));
            assert(own_nanos(state.nodes, i) >= 0);
        }
    }
    assert forall|k: int| 0 <= k < next.stack.len() implies #[trigger] next.covered(k, now) by {
        if k < top {
            assert(state.covered(k, clock));
            assert(state.follows(k));
            assert(next.stack[k] == state.stack[k]);
            let at = state.stack[k].index.position as int;
            assert(inner_nanos(next.nodes, at) == inner_nanos(state.nodes, at));
        }
    }
    assert forall|j: int| 0 <= j < next.nodes.len() && next.at_rest(j) implies #[trigger] own_nanos(
        next.nodes,
        j,
    ) >= 0 by {
        assert(next.stack[top].index == index);
        if j < state.nodes.len() {
            assert forall|k: int| 0 <= k < state.stack.len() implies (
            #[trigger] state.stack[k]).index.position != j by {
                assert(next.stack[k] == state.stack[k]);
            }
            assert(state.at_rest(j));
            assert(own_nanos(state.nodes, j) >= 0);
            assert(inner_nanos(next.nodes, j) == inner_nanos(state.nodes, j));
        }
    }
}

/// Ending the innermost open call gives it the time that it took, which covers the calls that it
/// made: if no call took less time than the calls that it made, that stays so, as long as the
/// clock does not go back.
pub proof fn law_returning_keeps_the_time(
    state: GraphState,
    clock: Instant,
    now: Instant,
    next: GraphState,
)
    requires
        state.sound(),
        state.timely(clock),
        clock.nanos <= now.nanos,
        state.stack.len() > 0,
        state.in_range(state.stack.len() - 1, now),
        state.pops(state.stack.last().index, now, next),
    ensures
        next.timely(now),
        next == state.closed_at(state.stack.len() - 1, now),
{
    let top = state.stack.len() - 1;
    let index = state.stack[top].index;
    let i = index.position as int;
    assert(state.open_at(index, top));
    let k0 = choose|k: int| #[trigger] state.open_at(index, k) && next == state.closed_at(k, now);
    if k0 < top {
        lemma_stack_grows(state, k0, top);
    }
    assert(k0 == top);
    assert(state.follows(top));
    assert(state.covered(top, clock));
    let value = state.measured(top, now);
    let took = state.elapsed(top, now);
    assert(value.duration.nanos == state.nodes.values[i].duration.nanos + took);
    assert forall|p: int| 0 <= p < state.nodes.len() implies #[trigger] inner_nanos(next.nodes, p)
        == inner_nanos(state.nodes, p) + if state.nodes.parents[i] == Some(p) {
        took as int
    } else {
        0
    } by {
        lemma_inner_with_value(state.nodes, i, value, p, state.nodes.len());
    }
    assert(inner_nanos(next.nodes, i) == inner_nanos(state.nodes, i));
    assert forall|k: int| 0 <= k < next.stack.len() implies #[trigger] next.covered(k, now) by {
        assert(state.covered(k, clock));
        assert(state.follows(k));
        lemma_stack_grows(state, k, top);
        let at = state.stack[k].index.position as int;
        assert(inner_nanos(next.nodes, at) == inner_nanos(state.nodes, at) + if state.nodes.parents[i]
            == Some(at) {
            took as int
        } else {
            0
        });
        if k + 1 < top {
            lemma_stack_grows(state, k, top - 1);
        }
    }
    assert forall|j: int| 0 <= j < next.nodes.len() && next.at_rest(j) implies #[trigger] own_nanos(
        next.nodes,
        j,
    ) >= 0 by {
        assert(inner_nanos(next.nodes, j) == inner_nanos(state.nodes, j) + if state.nodes.parents[i]
            == Some(j) {
            took as int
        } else {
            0
        });
        if j != i {
            assert forall|k: int| 0 <= k < state.stack.len() implies (
            #[trigger] state.stack[k]).index.position != j by {
                if k < top {
                    assert(next.stack[k] == state.stack[k]);
                }
            }
            assert(state.at_rest(j));
            assert(own_nanos(state.nodes, j) >= 0);
            if top > 0 {
                assert(next.stack[top - 1] == state.stack[top - 1]);
            }
        }
    }
}

/// A complete trace can be made into a flame graph.
pub proof fn law_a_complete_trace_is_nested(state: GraphState, clock: Instant)
    requires
        state.timely(clock),
        state.stack.len() == 0,
    ensures
        nested(state.nodes),
{
    assert forall|i: int| 0 <= i < state.nodes.len() implies #[trigger] own_nanos(state.nodes, i)
        >= 0 by {
        assert(state.at_rest(i));
    }
}

/// Whether step `k` of a history makes a call, ends the innermost open call, or, once no call is
/// open, starts afresh. `clocks` holds the readings of the clock.
pub open spec fn proceeds(history: Seq<GraphState>, clocks: Seq<Instant>, k: int) -> bool {
    let from = history[k];
    let to = history[k + 1];
    let now = clocks[k + 1];
    &&& clocks[k].nanos <= now.nanos
    &&& {
        ||| (from.stack.len() == 0 ==> from.nodes.len() == 0) && exists|site: CallSite, index: Index|
            #[trigger] from.pushes(site, now, to, index)
        ||| from.stack.len() > 0 && from.in_range(from.stack.len() - 1, now) && from.pops(
            from.stack.last().index,
            now,
            to,
        )
        ||| from.stack.len() == 0 && to == GraphState::empty()
    }
}

/// As long as calls end innermost first, and the clock does not go back, a complete trace is
/// always nested, so that it can be made into a flame graph: whatever calls were made and
/// ended, over however many traces.
pub proof fn law_complete_traces_can_be_drawn(
    history: Seq<GraphState>,
    clocks: Seq<Instant>,
    n: int,
)
    requires
        history.len() > 0,
        clocks.len() == history.len(),
        history[0] == GraphState::empty(),
        forall|k: int| 0 <= k < history.len() - 1 ==> #[trigger] proceeds(history, clocks, k),
        0 <= n < history.len(),
    ensures
        history[n].sound(),
        history[n].timely(clocks[n]),
        history[n].stack.len() == 0 ==> nested(history[n].nodes),
    decreases n,
{
    if n > 0 {
        law_complete_traces_can_be_drawn(history, clocks, n - 1);
        let from = history[n - 1];
        let to = history[n];
        let clock = clocks[n - 1];
        let now = clocks[n];
        assert(proceeds(history, clocks, n - 1));
        if from.stack.len() == 0 && to == GraphState::empty() {
        } else if from.stack.len() > 0 && from.in_range(from.stack.len() - 1, now) && from.pops(
            from.stack.last().index,
            now,
            to,
        ) {
            law_returning_keeps_the_tree(from, from.stack.last().index, now, to);
            law_returning_keeps_the_time(from, clock, now, to);
        } else {
            let (site, index) = choose|site: CallSite, index: Index| #[trigger]
                from.pushes(site, now, to, index);
            law_calling_keeps_the_tree(from, site, now, to, index);
            law_calling_keeps_the_time(from, clock, site, now, to, index);
        }
    }
    if history[n].stack.len() == 0 {
        law_a_complete_trace_is_nested(history[n], clocks[n]);
    }
}

/// Repeated calls under one call share one node, and calls of another name or place do not: a
/// call that follows one that is over is counted at the same node if and only if it is a call of
/// the same site. Making a call changes no measurement, and opens one call more.
pub proof fn law_repeated_calls_share_a_node(
    state: GraphState,
    site: CallSite,
    start: Instant,
    open: GraphState,
    index: Index,
    end: Instant,
    back: GraphState,
    other: CallSite,
    again: Instant,
    next: GraphState,
    other_index: Index,
)
    requires
        state.sound(),
        state.stack.len() > 0,
        state.pushes(site, start, open, index),
        open.pops(index, end, back),
        back.pushes(other, again, next, other_index),
    ensures
        other_index == index <==> other.eq_spec(&site),
        back.stack == state.stack,
        next.stack == state.stack.push(StackFrame { index: other_index, start: again }),
        next.nodes.values.len() >= back.nodes.values.len(),
        forall|i: int|
            0 <= i < back.nodes.len() ==> #[trigger] next.nodes.values[i] == back.nodes.values[i],
{
    lemma_one_call(state, site, start, open, index, end, back);
    law_calling_keeps_the_tree(state, site, start, open, index);
    let parent = state.innermost();
    let i = index.position as int;
    let j = other_index.position as int;
    assert(open.nodes.is_child(parent, site, i));
    assert(back.nodes.is_child(parent, site, i));
    if other.eq_spec(&site) {
        assert(back.nodes.is_child(parent, other, i));
        lemma_one_child(back.nodes, parent, other, i, j);
    } else if i == j {
        assert(back.nodes.has_child(parent, other));
        assert(back.nodes.keys[i].eq_spec(&other));
    }
}

/// Whether calling `site` once for each of `spans`, each call over before the next one, leads
/// from one state to another.
pub open spec fn calls(
    from: GraphState,
    site: CallSite,
    spans: Seq<(Instant, Instant)>,
    to: GraphState,
) -> bool
    decreases spans.len(),
{
    if spans.len() == 0 {
        to == from
    } else {
        exists|mid: GraphState, open: GraphState, index: Index|
            {
                &&& calls(from, site, spans.drop_last(), mid)
                &&& #[trigger] mid.pushes(site, spans.last().0, open, index)
                &&& open.pops(index, spans.last().1, to)
            }
    }
}

/// The nanoseconds that some calls took together.
pub open spec fn total_nanos(spans: Seq<(Instant, Instant)>) -> nat
    decreases spans.len(),
{
    if spans.len() == 0 {
        0
    } else {
        total_nanos(spans.drop_last()) + Instant::elapsed_nanos(spans.last().0, spans.last().1)
    }
}

/// What was measured of the calls of `site` from the innermost open call.
pub open spec fn measured_before(state: GraphState, site: CallSite) -> Measurement {
    if state.nodes.has_child(state.innermost(), site) {
        state.nodes.values[choose|i: int| state.nodes.is_child(state.innermost(), site, i)]
    } else {
        nothing()
    }
}

/// Whether `to` differs from `from` in this only: node `i` is the one child of the innermost open
/// call for `site`, with that many more calls and that many more nanoseconds.
pub open spec fn lumped(
    from: GraphState,
    site: CallSite,
    count: nat,
    nanos: nat,
    to: GraphState,
    i: int,
) -> bool {
    let before = measured_before(from, site);
    &&& to.stack == from.stack
    &&& to.nodes.is_child(from.innermost(), site, i)
    &&& to.nodes.values[i].num_invocations == before.num_invocations + count
    &&& to.nodes.values[i].duration.nanos == before.duration.nanos + nanos
    &&& to.nodes.len() == if from.nodes.has_child(from.innermost(), site) {
        from.nodes.len()
    } else {
        from.nodes.len() + 1
    }
    &&& forall|j: int|
        #![trigger to.nodes.parents[j]]
        0 <= j < from.nodes.len() ==> to.nodes.parents[j] == from.nodes.parents[j]
            && to.nodes.keys[j] == from.nodes.keys[j] && (j != i ==> to.nodes.values[j]
            == from.nodes.values[j])
}

/// One call that is made and is over leads back to the same open calls, and counts at its node.
proof fn lemma_one_call(
    state: GraphState,
    site: CallSite,
    start: Instant,
    open: GraphState,
    index: Index,
    end: Instant,
    to: GraphState,
)
    requires
        state.sound(),
        state.stack.len() > 0,
        state.pushes(site, start, open, index),
        open.pops(index, end, to),
    ensures
        to.sound(),
        to.stack == state.stack,
        state.nodes.has_child(state.innermost(), site) ==> state.nodes.is_child(
            state.innermost(),
            site,
            index.position as int,
        ),
        !state.nodes.has_child(state.innermost(), site) ==> index.position == state.nodes.len(),
        index.position < open.nodes.len(),
        to.nodes == open.nodes.with_value(
            index.position as int,
            open.measured(state.stack.len() as int, end),
        ),
        open.stack[state.stack.len() as int].start == start,
{
    law_calling_keeps_the_tree(state, site, start, open, index);
    law_returning_keeps_the_tree(open, index, end, to);
    let top = state.stack.len() as int;
    assert(open.open_at(index, top));
    let k = choose|k: int| #[trigger] open.open_at(index, k) && to == open.closed_at(k, end);
    if k < top {
        lemma_stack_grows(open, k, top);
    }
    assert(to.stack =~= state.stack);
    assert(open.follows(top));
}

/// If a call makes the same call many times, all of them are lumped together into one span that
/// shows how many there were and their total time. Nothing else changes.
pub proof fn law_calls_are_lumped_together(
    from: GraphState,
    site: CallSite,
    spans: Seq<(Instant, Instant)>,
    to: GraphState,
)
    requires
        from.sound(),
        from.stack.len() > 0,
        spans.len() > 0,
        measured_before(from, site).num_invocations + spans.len() <= usize::MAX,
        measured_before(from, site).duration.nanos + total_nanos(spans) <= u128::MAX,
        calls(from, site, spans, to),
    ensures
        to.sound(),
        exists|i: int| #[trigger] lumped(from, site, spans.len(), total_nanos(spans), to, i),
    decreases spans.len(),
{
    let (mid, open, index) = choose|mid: GraphState, open: GraphState, index: Index|
        {
            &&& calls(from, site, spans.drop_last(), mid)
            &&& #[trigger] mid.pushes(site, spans.last().0, open, index)
            &&& open.pops(index, spans.last().1, to)
        };
    let parent = from.innermost();
    let i = index.position as int;
    let top = from.stack.len() as int;
    if spans.len() == 1 {
        assert(mid == from);
        lemma_one_call(from, site, spans.last().0, open, index, spans.last().1, to);
        if from.nodes.has_child(parent, site) {
            let chosen = choose|c: int| from.nodes.is_child(parent, site, c);
            lemma_one_child(from.nodes, parent, site, chosen, i);
        }
        assert(total_nanos(spans.drop_last()) == 0);
    } else {
        law_calls_are_lumped_together(from, site, spans.drop_last(), mid);
        let n = (spans.len() - 1) as nat;
        let m = choose|m: int| #[trigger]
            lumped(from, site, n, total_nanos(spans.drop_last()), mid, m);
        assert(mid.nodes.has_child(parent, site));
        lemma_one_call(mid, site, spans.last().0, open, index, spans.last().1, to);
        lemma_one_child(mid.nodes, parent, site, m, i);
    }
    assert(to.nodes.keys[i].eq_spec(&site));
    assert(lumped(from, site, spans.len(), total_nanos(spans), to, i));
}

/// A node has one child at most for a site.
proof fn lemma_one_child(nodes: Nodes, parent: Option<int>, site: CallSite, i: int, j: int)
    requires
        nodes.distinct_siblings(),
        nodes.is_child(parent, site, i),
        nodes.is_child(parent, site, j),
    ensures
        i == j,
{
    if i < j {
        assert(nodes.keys[i].eq_spec(&nodes.keys[j]));
    } else if j < i {
        assert(nodes.keys[j].eq_spec(&nodes.keys[i]));
    }
}

/// The nanoseconds that the calls at those of the first `n` nodes that are node `top` or lie below
/// it took themselves.
pub open spec fn own_total(nodes: Nodes, top: int, n: nat) -> int
    decreases n,
{
    if n == 0 {
        0
    } else {
        own_total(nodes, top, (n - 1) as nat) + if at_or_below(nodes, top, n - 1) {
            own_nanos(nodes, n - 1)
        } else {
            0
        }
    }
}

/// The nanoseconds of those of the first `n` nodes that are node `top` or lie below it.
spec fn all_nanos(nodes: Nodes, top: int, n: nat) -> nat
    decreases n,
{
    if n == 0 {
        0
    } else {
        all_nanos(nodes, top, (n - 1) as nat) + if at_or_below(nodes, top, n - 1) {
            nodes.values[n - 1].duration.nanos as nat
        } else {
            0
        }
    }
}

/// The nanoseconds of the children, among the first `n` nodes, of those of the first `m` nodes
/// that are node `top` or lie below it.
spec fn inner_total(nodes: Nodes, top: int, m: nat, n: nat) -> nat
    decreases m,
{
    if m == 0 {
        0
    } else {
        inner_total(nodes, top, (m - 1) as nat, n) + if at_or_below(nodes, top, m - 1) {
            nanos_at(nodes, children_among(nodes.parents, m - 1, n))
        } else {
            0
        }
    }
}

/// One more node counts once among the children of the first `m` nodes, if its parent is one of
/// them and is `top` or lies below it.
proof fn lemma_inner_total_grows(nodes: Nodes, top: int, m: nat, n: nat)
    requires
        nodes.rooted(),
        0 < n <= nodes.len(),
    ensures
        inner_total(nodes, top, m, n) == inner_total(nodes, top, m, (n - 1) as nat)
            + if nodes.parents[n - 1] matches Some(p) && 0 <= p < m && at_or_below(nodes, top, p) {
            nodes.values[n - 1].duration.nanos as nat
        } else {
            0
        },
    decreases m,
{
    if m > 0 {
        lemma_inner_total_grows(nodes, top, (m - 1) as nat, n);
        lemma_nanos_push(nodes, children_among(nodes.parents, m - 1, (n - 1) as nat), n - 1);
    }
}

/// Among no nodes there are no children.
proof fn lemma_inner_total_of_none(nodes: Nodes, top: int, m: nat)
    ensures
        inner_total(nodes, top, m, 0) == 0,
    decreases m,
{
    if m > 0 {
        lemma_inner_total_of_none(nodes, top, (m - 1) as nat);
    }
}

/// What lies at or below a node does not stand before it.
proof fn lemma_below_is_after(nodes: Nodes, top: int, i: int)
    requires
        at_or_below(nodes, top, i),
    ensures
        top <= i,
    decreases i,
{
    if i != top {
        lemma_below_is_after(nodes, top, nodes.parents[i]->0);
    }
}

/// Every node at or below `top`, but for `top` itself, counts once among the children of the
/// nodes at or below `top`.
proof fn lemma_inner_total(nodes: Nodes, top: int, n: nat)
    requires
        nodes.rooted(),
        0 <= top < nodes.len(),
        n <= nodes.len(),
    ensures
        all_nanos(nodes, top, n) == inner_total(nodes, top, nodes.len(), n) + if top < n {
            nodes.values[top].duration.nanos as nat
        } else {
            0
        },
    decreases n,
{
    if n > 0 {
        lemma_inner_total(nodes, top, (n - 1) as nat);
        lemma_inner_total_grows(nodes, top, nodes.len(), n);
        if n - 1 == top {
            if let Some(p) = nodes.parents[top] {
                if at_or_below(nodes, top, p) {
                    lemma_below_is_after(nodes, top, p);
                }
            }
        }
    } else {
        lemma_inner_total_of_none(nodes, top, nodes.len());
    }
}

/// The time of some calls themselves is their time without that of the calls that they made.
proof fn lemma_own_total(nodes: Nodes, top: int, n: nat)
    ensures
        own_total(nodes, top, n) == all_nanos(nodes, top, n) - inner_total(
            nodes,
            top,
            n,
            nodes.len(),
        ),
    decreases n,
{
    if n > 0 {
        lemma_own_total(nodes, top, (n - 1) as nat);
    }
}

/// No time is lost or counted twice: the times that the calls at any node and below it took
/// themselves add up to the time of the calls at that node. For the root, that is the duration
/// of the outermost call.
pub proof fn law_times_add_up(nodes: Nodes, top: int)
    requires
        nodes.rooted(),
        0 <= top < nodes.len(),
    ensures
        own_total(nodes, top, nodes.len()) == nodes.values[top].duration.nanos,
{
    lemma_own_total(nodes, top, nodes.len());
    lemma_inner_total(nodes, top, nodes.len());
}

/// The counts at the ends of all the lines that are written for node `top` and the nodes below
/// it, together.
pub open spec fn written_micros(nodes: Nodes, top: int) -> nat
    decreases nodes.len() - top, nodes.children(top).len() + 1,
    when nodes.rooted() && 0 <= top < nodes.len()
{
    own_nanos(nodes, top) as nat / 1000 + children_micros(nodes, top, nodes.children(top).len())
}

/// The counts at the ends of all the lines that are written for the first `n` children of node
/// `top` and the nodes below them, together.
pub open spec fn children_micros(nodes: Nodes, top: int, n: nat) -> nat
    decreases nodes.len() - top, n,
    when nodes.rooted() && 0 <= top < nodes.len() && n <= nodes.children(top).len()
    via children_micros_decreases
{
    if n == 0 {
        0
    } else {
        children_micros(nodes, top, (n - 1) as nat) + written_micros(
            nodes,
            nodes.children(top)[n - 1],
        )
    }
}

#[via_fn]
proof fn children_micros_decreases(nodes: Nodes, top: int, n: nat) {
    lemma_children_among(nodes.parents, top, nodes.len());
    if n > 0 {
        let c = nodes.children(top)[n - 1];
        assert(nodes.parents[c] == Some(top));
    }
}

/// Whether all durations at node `top` and below it are whole microseconds.
pub open spec fn whole_micros(nodes: Nodes, top: int) -> bool {
    forall|i: int|
        0 <= i < nodes.len() && #[trigger] at_or_below(nodes, top, i) ==> nodes.values[i].duration.nanos
            % 1000 == 0
}

/// The counts for the first `n` children of a node and the nodes below them add up to the
/// durations of these children.
proof fn lemma_children_add_up(nodes: Nodes, top: int, n: nat)
    requires
        nodes.rooted(),
        0 <= top < nodes.len(),
        n <= nodes.children(top).len(),
        nested_below(nodes, top),
        whole_micros(nodes, top),
    ensures
        children_micros(nodes, top, n) * 1000 == nanos_at(nodes, nodes.children(top).take(n as int)),
    decreases nodes.len() - top, n,
{
    if n > 0 {
        let list = nodes.children(top);
        let c = list[n - 1];
        lemma_children_among(nodes.parents, top, nodes.len());
        assert(nodes.parents[c] == Some(top));
        lemma_children_add_up(nodes, top, (n - 1) as nat);
        assert forall|i: int| 0 <= i < nodes.len() && at_or_below(nodes, c, i) implies #[trigger] own_nanos(
            nodes,
            i,
        ) >= 0 by {
            lemma_below_child(nodes, top, c, i);
        }
        assert forall|i: int| 0 <= i < nodes.len() && #[trigger] at_or_below(nodes, c, i) implies nodes.values[i].duration.nanos
            % 1000 == 0 by {
            lemma_below_child(nodes, top, c, i);
            assert(at_or_below(nodes, top, i));
        }
        law_counts_add_up(nodes, c);
        assert(at_or_below(nodes, c, c));
        assert(list.take(n as int).drop_last() =~= list.take(n - 1));
    }
}

/// The counts at the ends of the lines that are written for a node and all nodes below it add up
/// to the duration of that node in microseconds, if all these durations are whole microseconds
/// and no call took less time than the calls that it made.
pub proof fn law_counts_add_up(nodes: Nodes, top: int)
    requires
        nodes.rooted(),
        0 <= top < nodes.len(),
        nested_below(nodes, top),
        whole_micros(nodes, top),
    ensures
        written_micros(nodes, top) == nodes.values[top].duration.micros(),
    decreases nodes.len() - top, nodes.children(top).len() + 1,
{
    let list = nodes.children(top);
    lemma_children_add_up(nodes, top, list.len());
    assert(list.take(list.len() as int) =~= list);
    assert(at_or_below(nodes, top, top));
    assert(own_nanos(nodes, top) >= 0);
}

/// A trace is handed out when it is complete, and only then: ending a call that is not open
/// changes nothing and hands nothing out, and ending an inner call hands nothing out.
pub proof fn law_only_complete_traces_are_handed_out<
    C: Fn(&FlameGraph) -> Option<String>,
    F: Fn(&FlameGraph) -> Option<String>,
>(
    state: GraphState,
    callback: Option<C>,
    handler: Option<F>,
    index: Index,
    now: Instant,
    next: GraphState,
    next_callback: Option<C>,
    record: Option<RecordView>,
)
    requires
        state.sound(),
        graph_closing(state, callback, handler, index, now, next, next_callback, record),
    ensures
        !state.is_open(index) ==> next == state && next_callback == callback && record is None,
        state.is_open(index) && index != state.stack[0].index ==> next.stack.len() > 0
            && next_callback == callback && record is None,
        state.is_open(index) && index == state.stack[0].index ==> next == GraphState::empty()
            && graph_logs(callback, handler, state.closed_at(0, now), record),
{
    let closed = choose|closed: GraphState| #[trigger]
        state.pops(index, now, closed) && if state.is_open(index) && closed.stack.len() == 0 {
            &&& next == GraphState::empty()
            &&& next_callback is None
            &&& graph_logs(callback, handler, closed, record)
        } else {
            &&& next == closed
            &&& next_callback == callback
            &&& record is None
        };
    if state.is_open(index) {
        let k = choose|k: int| #[trigger]
            state.open_at(index, k) && closed == state.closed_at(k, now);
        if index == state.stack[0].index && k > 0 {
            lemma_stack_grows(state, 0, k);
        }
    }
}

/// If the names of outermost spans are limited, a trace begins with a span of one of these
/// names, or not at all.
pub proof fn law_entry_points_begin_traces(
    state: GraphState,
    names: Seq<&'static str>,
    site: CallSite,
    now: Instant,
    next: GraphState,
    index: Index,
)
    requires
        state.sound(),
        state.stack.len() == 0 ==> state.nodes.len() == 0,
        state.nodes.len() > 0 ==> listed(names, state.nodes.keys[0].name@),
        !refuses(state, Some(names), site.name),
        state.pushes(site, now, next, index),
    ensures
        listed(names, next.nodes.keys[0].name@),
{
}

/// A span may not begin a trace if the names are limited and its own is, character by character,
/// none of them; every other span may.
pub proof fn law_only_given_names_begin_traces(
    state: GraphState,
    entry_points: Option<Seq<&'static str>>,
    name: &'static str,
)
    ensures
        entry_points is None ==> !refuses(state, entry_points, name),
        state.nodes.len() > 0 ==> !refuses(state, entry_points, name),
        entry_points is Some && state.nodes.len() == 0 ==> (refuses(state, entry_points, name)
            <==> forall|i: int|
            0 <= i < entry_points->0.len() ==> (#[trigger] entry_points->0[i])@ != name@),
{
    if let Some(names) = entry_points {
        assert(listed(names, name@) <==> exists|i: int|
            0 <= i < names.len() && (#[trigger] names[i])@ == name@);
    }
}

/// Whether node `i` counts the calls of a site that are made from the innermost open call.
pub open spec fn counts_here(state: GraphState, site: CallSite, i: int) -> bool {
    &&& 0 <= i < state.nodes.len()
    &&& state.nodes.parents[i] == if state.stack.len() == 0 {
        None
    } else {
        Some(state.stack[state.stack.len() - 1].index.position as int)
    }
    &&& state.nodes.keys[i].name@ == site.name@
    &&& state.nodes.keys[i].loc@ == site.loc@
}

/// A call that is made is the innermost open one. It is counted at the node for calls of this name
/// and place from the call around it, which is made first if there is none; all else stays as it
/// is.
pub proof fn law_a_call_is_counted_at_its_node(
    state: GraphState,
    site: CallSite,
    now: Instant,
    next: GraphState,
    index: Index,
)
    requires
        state.sound(),
        state.pushes(site, now, next, index),
    ensures
        next.stack.len() == state.stack.len() + 1,
        forall|k: int| 0 <= k < state.stack.len() ==> #[trigger] next.stack[k] == state.stack[k],
        next.stack.last().index == index,
        next.stack.last().start == now,
        (exists|i: int| #[trigger] counts_here(state, site, i)) ==> {
            &&& counts_here(state, site, index.position as int)
            &&& next.nodes == state.nodes
        },
        !(exists|i: int| #[trigger] counts_here(state, site, i)) ==> {
            &&& index.position == state.nodes.len()
            &&& next.nodes.parents.len() == state.nodes.len() + 1
            &&& next.nodes.keys.len() == state.nodes.len() + 1
            &&& next.nodes.values.len() == state.nodes.len() + 1
            &&& forall|i: int|
                #![trigger next.nodes.parents[i]]
                0 <= i < state.nodes.len() ==> next.nodes.parents[i] == state.nodes.parents[i]
                    && next.nodes.keys[i] == state.nodes.keys[i] && next.nodes.values[i]
                    == state.nodes.values[i]
            &&& next.nodes.parents.last() == if state.stack.len() == 0 {
                None
            } else {
                Some(state.stack[state.stack.len() - 1].index.position as int)
            }
            &&& next.nodes.keys.last() == site
            &&& next.nodes.values.last().duration.nanos == 0
            &&& next.nodes.values.last().num_invocations == 0
        },
{
    let parent = state.innermost();
    assert forall|i: int| #[trigger] counts_here(state, site, i) == state.nodes.is_child(
        parent,
        site,
        i,
    ) by {
    }
    if state.nodes.has_child(parent, site) {
        assert(counts_here(state, site, index.position as int));
    } else {
        assert forall|i: int| !(#[trigger] counts_here(state, site, i)) by {
            assert(!state.nodes.is_child(parent, site, i));
        }
    }
}

/// A call that ends is counted once more at its node, with the time from when it was made until
/// now; it and the calls that are open inside it are over, and all else stays as it is.
pub proof fn law_a_call_that_ends_is_measured(
    state: GraphState,
    index: Index,
    now: Instant,
    next: GraphState,
    k: int,
)
    requires
        state.sound(),
        0 <= k < state.stack.len(),
        state.stack[k].index == index,
        ({
            let before = state.nodes.values[index.position as int];
            &&& before.num_invocations < usize::MAX
            &&& now.nanos <= state.stack[k].start.nanos || before.duration.nanos + now.nanos
                - state.stack[k].start.nanos <= u128::MAX
        }),
        state.pops(index, now, next),
    ensures
        next.stack.len() == k,
        forall|j: int| 0 <= j < k ==> #[trigger] next.stack[j] == state.stack[j],
        next.nodes.parents == state.nodes.parents,
        next.nodes.keys == state.nodes.keys,
        next.nodes.values.len() == state.nodes.values.len(),
        forall|i: int|
            0 <= i < state.nodes.len() && i != index.position ==> #[trigger] next.nodes.values[i]
                == state.nodes.values[i],
        ({
            let before = state.nodes.values[index.position as int];
            let after = next.nodes.values[index.position as int];
            &&& after.num_invocations == before.num_invocations + 1
            &&& after.duration.nanos == before.duration.nanos + if state.stack[k].start.nanos
                <= now.nanos {
                now.nanos - state.stack[k].start.nanos
            } else {
                0
            }
        }),
{
    assert(state.open_at(index, k));
    let l = choose|l: int| #[trigger] state.open_at(index, l) && next == state.closed_at(l, now);
    if k < l {
        lemma_stack_grows(state, k, l);
    } else if l < k {
        lemma_stack_grows(state, l, k);
    }
    assert(state.follows(k));
}

/// Ending a call that is not open changes nothing.
pub proof fn law_a_call_that_is_not_open_cannot_end(
    state: GraphState,
    index: Index,
    now: Instant,
    next: GraphState,
)
    requires
        forall|k: int| 0 <= k < state.stack.len() ==> (#[trigger] state.stack[k]).index != index,
        state.pops(index, now, next),
    ensures
        next == state,
{
    if state.is_open(index) {
        let k = choose|k: int| state.open_at(index, k);
        assert(state.stack[k].index == index);
    }
}

/// A complete trace is handed to its own callback, if it has one; else to the handler for all
/// traces, if one was set; and whoever is asked is asked about exactly this trace. What is said
/// then is the answer, and it is logged as a warning. If there is neither, the text of the trace
/// is logged.
pub proof fn law_the_graph_is_handed_out<
    C: Fn(&FlameGraph) -> Option<String>,
    F: Fn(&FlameGraph) -> Option<String>,
>(callback: Option<C>, handler: Option<F>, trace: GraphState, record: Option<RecordView>)
    requires
        graph_logs(callback, handler, trace, record),
    ensures
        record matches Some(r) ==> r.level == Level::Warn,
        callback matches Some(c) ==> exists|graph: &FlameGraph, answer: Option<String>|
            graph.state() == trace && #[trigger] call_ensures(c, (graph,), answer) && (
            match answer {
                Some(text) => record matches Some(r) && r.message == text@,
                None => record is None,
            }),
        callback is None && handler is Some ==> exists|graph: &FlameGraph, answer: Option<String>|
            graph.state() == trace && #[trigger] call_ensures(handler->0, (graph,), answer) && (
            match answer {
                Some(text) => record matches Some(r) && r.message == text@,
                None => record is None,
            }),
        callback is None && handler is None ==> record is Some,
        callback is None && handler is None && (forall|i: int|
            0 <= i < trace.nodes.len() ==> #[trigger] own_nanos(trace.nodes, i) >= 0)
            ==> record->0.message == subtree_text(trace.nodes, seq![0]),
        callback is None && handler is None && !(forall|i: int|
            0 <= i < trace.nodes.len() ==> #[trigger] own_nanos(trace.nodes, i) >= 0)
            ==> record->0.message == short_text(trace.nodes, 0),
{
    let message = choose|message: Option<Seq<char>>| #[trigger]
        graph_reports(callback, handler, trace, message) && record == warning(message);
    if let Some(c) = callback {
        let (graph, answer) = choose|graph: &FlameGraph, answer: Option<String>|
            graph.wf() && graph.state() == trace && #[trigger] call_ensures(c, (graph,), answer)
                && text_of(answer) == message;
        assert(graph.state() == trace && call_ensures(c, (graph,), answer));
    } else if let Some(h) = handler {
        let (graph, answer) = choose|graph: &FlameGraph, answer: Option<String>|
            graph.wf() && graph.state() == trace && #[trigger] call_ensures(h, (graph,), answer)
                && text_of(answer) == message;
        assert(graph.state() == trace && call_ensures(h, (graph,), answer));
    }
}

/// The nodes whose parent is node `i`, in the order in which they were made.
pub open spec fn callees(nodes: Nodes, i: int) -> Seq<int> {
    Seq::new(nodes.parents.len(), |j: int| j).filter(|j: int| nodes.parents[j] == Some(i))
}

/// The children of a node are the nodes whose parent it is.
proof fn lemma_children_are_callees(nodes: Nodes, i: int, n: nat)
    requires
        n <= nodes.len(),
    ensures
        children_among(nodes.parents, i, n) == Seq::new(n, |j: int| j).filter(
            |j: int| nodes.parents[j] == Some(i),
        ),
    decreases n,
{
    reveal(Seq::filter);
    let all = Seq::new(n, |j: int| j);
    if n > 0 {
        lemma_children_are_callees(nodes, i, (n - 1) as nat);
        assert(all.drop_last() =~= Seq::new((n - 1) as nat, |j: int| j));
    } else {
        assert(all =~= Seq::<int>::empty());
    }
}

/// The nanoseconds of some nodes together.
pub open spec fn nanos_together(nodes: Nodes, list: Seq<int>) -> nat {
    together(list.map_values(|j: int| nodes.values[j].duration.nanos as nat))
}

/// The nanoseconds of some nodes add up.
proof fn lemma_nanos_together(nodes: Nodes, list: Seq<int>)
    ensures
        nanos_at(nodes, list) == nanos_together(nodes, list),
    decreases list.len(),
{
    let times = list.map_values(|j: int| nodes.values[j].duration.nanos as nat);
    if list.len() > 0 {
        lemma_nanos_together(nodes, list.drop_last());
        assert(times.drop_last() =~= list.drop_last().map_values(
            |j: int| nodes.values[j].duration.nanos as nat,
        ));
    }
}

/// What a call took itself is what it took without all the calls that it made.
pub proof fn law_own_time_is_what_callees_leave(nodes: Nodes, i: int)
    ensures
        own_nanos(nodes, i) + nanos_together(nodes, callees(nodes, i))
            == nodes.values[i].duration.nanos,
{
    lemma_children_are_callees(nodes, i, nodes.len());
    lemma_nanos_together(nodes, nodes.children(i));
}

/// How a node is written, given the number of its calls in digits.
pub open spec fn spelled(site: CallSite, digits: Seq<char>) -> Seq<char> {
    site.name@ + " "@ + site.loc@ + " ("@ + digits + " calls)"@
}

/// What is written on the line of a node: all the nodes along its path, each by its name, its
/// place and the number of its calls; and the whole microseconds that its calls took without all
/// the calls that they made. The line ends there.
pub proof fn law_a_line_tells_the_time_of_its_own(
    nodes: Nodes,
    path: Seq<int>,
    calls: Seq<Seq<char>>,
    digits: Seq<char>,
    micros: nat,
)
    requires
        path.len() > 0,
        calls.len() == path.len(),
        forall|k: int|
            0 <= k < path.len() ==> numeral(
                #[trigger] calls[k],
                nodes.values[path[k]].num_invocations as nat,
            ),
        numeral(digits, micros),
        ({
            let inner = nanos_together(nodes, callees(nodes, path.last()));
            micros * 1000 + inner <= nodes.values[path.last()].duration.nanos < micros * 1000 + 1000
                + inner
        }),
    ensures
        path_line(nodes, path) == interleaved(
            Seq::new(path.len(), |k: int| spelled(nodes.keys[path[k]], calls[k])),
            ";"@,
        ).flatten() + " "@ + digits + "\n"@,
{
    law_own_time_is_what_callees_leave(nodes, path.last());
    let frames = path.map_values(|i: int| frame_text(nodes, i));
    let pieces = Seq::new(path.len(), |k: int| spelled(nodes.keys[path[k]], calls[k]));
    assert forall|k: int| 0 <= k < path.len() implies frames[k] == #[trigger] pieces[k] by {
        let n = nodes.values[path[k]].num_invocations as nat;
        law_decimal_reads_back(n);
        assert(numeral(calls[k], n));
        law_numerals_are_unique(calls[k], decimal(n), n);
    }
    assert(frames =~= pieces);
    law_joining_writes_all(frames, ";"@);
    law_decimal_reads_back(micros);
    law_numerals_are_unique(digits, decimal(micros), micros);
    assert(own_nanos(nodes, path.last()) as nat / 1000 == micros);
}

/// The text of a node is its own line and then the texts of all nodes whose parent it is, in the
/// order in which they were made.
pub proof fn law_every_node_is_written(nodes: Nodes, path: Seq<int>)
    requires
        nodes.rooted(),
        path.len() > 0,
        0 <= path.last() < nodes.len(),
    ensures
        subtree_text(nodes, path) == path_line(nodes, path) + callees(nodes, path.last()).map_values(
            |c: int| subtree_text(nodes, path.push(c)),
        ).flatten(),
{
    let list = nodes.children(path.last());
    lemma_children_are_callees(nodes, path.last(), nodes.len());
    lemma_children_are_written(nodes, path, list.len());
    assert(list.take(list.len() as int) =~= list);
}

/// The texts of the first children of a node are written one after the other.
proof fn lemma_children_are_written(nodes: Nodes, path: Seq<int>, n: nat)
    requires
        nodes.rooted(),
        path.len() > 0,
        0 <= path.last() < nodes.len(),
        n <= nodes.children(path.last()).len(),
    ensures
        children_text(nodes, path, n) == nodes.children(path.last()).take(n as int).map_values(
            |c: int| subtree_text(nodes, path.push(c)),
        ).flatten(),
    decreases n,
{
    let list = nodes.children(path.last());
    let f = |c: int| subtree_text(nodes, path.push(c));
    let texts = list.take(n as int).map_values(f);
    if n == 0 {
        assert(texts =~= Seq::<Seq<char>>::empty());
    } else {
        lemma_children_are_written(nodes, path, (n - 1) as nat);
        lemma_children_among(nodes.parents, path.last(), nodes.len());
        assert(0 <= list[n - 1] < nodes.len());
        assert(path.push(list[n - 1]).last() == list[n - 1]);
        let rest = list.take(n - 1).map_values(f);
        assert(texts =~= rest.push(f(list[n - 1])));
        rest.lemma_flatten_push(f(list[n - 1]));
        assert(children_text(nodes, path, n) == children_text(nodes, path, (n - 1) as nat)
            + subtree_text(nodes, path.push(list[n - 1])));
    }
}

/// In short, a node is written by its name and the number of its calls, and then the nodes whose
/// parent it is in braces, in the order in which they were made.
pub proof fn law_every_node_is_written_in_short(nodes: Nodes, i: int, digits: Seq<char>)
    requires
        nodes.rooted(),
        0 <= i < nodes.len(),
        numeral(digits, nodes.values[i].num_invocations as nat),
    ensures
        short_text(nodes, i) == nodes.keys[i].name@ + " ("@ + digits + " calls)"@ + if callees(
            nodes,
            i,
        ).len() == 0 {
            "; "@
        } else {
            " { "@ + callees(nodes, i).map_values(|c: int| short_text(nodes, c)).flatten() + "}"@
        },
{
    let n = nodes.values[i].num_invocations as nat;
    law_decimal_reads_back(n);
    law_numerals_are_unique(digits, decimal(n), n);
    let list = nodes.children(i);
    lemma_children_are_callees(nodes, i, nodes.len());
    lemma_children_are_written_in_short(nodes, i, list.len());
    assert(list.take(list.len() as int) =~= list);
}

/// The first children of a node are written in short one after the other.
proof fn lemma_children_are_written_in_short(nodes: Nodes, i: int, n: nat)
    requires
        nodes.rooted(),
        0 <= i < nodes.len(),
        n <= nodes.children(i).len(),
    ensures
        short_children_text(nodes, i, n) == nodes.children(i).take(n as int).map_values(
            |c: int| short_text(nodes, c),
        ).flatten(),
    decreases n,
{
    let list = nodes.children(i);
    let f = |c: int| short_text(nodes, c);
    let texts = list.take(n as int).map_values(f);
    if n == 0 {
        assert(texts =~= Seq::<Seq<char>>::empty());
    } else {
        lemma_children_are_written_in_short(nodes, i, (n - 1) as nat);
        lemma_children_among(nodes.parents, i, nodes.len());
        assert(0 <= list[n - 1] < nodes.len());
        let rest = list.take(n - 1).map_values(f);
        assert(texts =~= rest.push(f(list[n - 1])));
        rest.lemma_flatten_push(f(list[n - 1]));
    }
}

/// Whether a line ends with a space and `count` in digits.
pub open spec fn ends_with_count(line: Seq<char>, count: nat) -> bool {
    exists|head: Seq<char>, digits: Seq<char>| #[trigger]
        numeral(digits, count) && line == #[trigger] (head + " "@) + digits + "\n"@
}

/// Whether `lines` make up a text and end with `counts`, which are `total` together.
pub open spec fn counted(
    text: Seq<char>,
    lines: Seq<Seq<char>>,
    counts: Seq<nat>,
    total: nat,
) -> bool {
    &&& text == lines.flatten()
    &&& counts.len() == lines.len()
    &&& forall|k: int| 0 <= k < lines.len() ==> ends_with_count(#[trigger] lines[k], counts[k])
    &&& together(counts) == total
}

/// Times are together what they are in two parts.
proof fn lemma_together(a: Seq<nat>, b: Seq<nat>)
    ensures
        together(a + b) == together(a) + together(b),
    decreases b.len(),
{
    if b.len() == 0 {
        assert(a + b =~= a);
    } else {
        lemma_together(a, b.drop_last());
        assert((a + b).drop_last() =~= a + b.drop_last());
        assert((a + b).last() == b.last());
    }
}

/// Two texts that are made up of lines with counts make up one.
proof fn lemma_counted(
    a: Seq<char>,
    a_lines: Seq<Seq<char>>,
    a_counts: Seq<nat>,
    x: nat,
    b: Seq<char>,
    b_lines: Seq<Seq<char>>,
    b_counts: Seq<nat>,
    y: nat,
)
    requires
        counted(a, a_lines, a_counts, x),
        counted(b, b_lines, b_counts, y),
    ensures
        counted(a + b, a_lines + b_lines, a_counts + b_counts, x + y),
{
    vstd::seq_lib::lemma_flatten_concat(a_lines, b_lines);
    lemma_together(a_counts, b_counts);
    let lines = a_lines + b_lines;
    let counts = a_counts + b_counts;
    assert forall|k: int| 0 <= k < lines.len() implies ends_with_count(#[trigger] lines[k], counts[k]) by {
        if k < a_lines.len() {
            assert(lines[k] == a_lines[k] && counts[k] == a_counts[k]);
        } else {
            assert(lines[k] == b_lines[k - a_lines.len()]);
            assert(counts[k] == b_counts[k - a_lines.len()]);
        }
    }
}

/// The text of a node is made up of lines with counts.
proof fn lemma_text_is_counted(nodes: Nodes, path: Seq<int>)
    requires
        nodes.rooted(),
        path.len() > 0,
        0 <= path.last() < nodes.len(),
    ensures
        exists|lines: Seq<Seq<char>>, counts: Seq<nat>| #[trigger]
            counted(subtree_text(nodes, path), lines, counts, written_micros(nodes, path.last())),
    decreases nodes.len() - path.last(), nodes.children(path.last()).len() + 1,
{
    let top = path.last();
    let n = nodes.children(top).len();
    let own = own_nanos(nodes, top) as nat / 1000;
    let line = path_line(nodes, path);
    law_decimal_reads_back(own);
    let head = header_text(nodes, path);
    assert(line == (head + " "@) + decimal(own) + "\n"@);
    assert(ends_with_count(line, own));
    assert(seq![own].drop_last() =~= Seq::<nat>::empty());
    assert(together(seq![own].drop_last()) == 0);
    assert(together(seq![own]) == own);
    seq![line].lemma_flatten_one_element();
    assert(counted(line, seq![line], seq![own], own));
    lemma_children_text_is_counted(nodes, path, n);
    let (lines, counts) = choose|lines: Seq<Seq<char>>, counts: Seq<nat>| #[trigger]
        counted(children_text(nodes, path, n), lines, counts, children_micros(nodes, top, n));
    lemma_counted(
        line,
        seq![line],
        seq![own],
        own,
        children_text(nodes, path, n),
        lines,
        counts,
        children_micros(nodes, top, n),
    );
    assert(subtree_text(nodes, path) == line + children_text(nodes, path, n));
    assert(written_micros(nodes, top) == own + children_micros(nodes, top, n));
}

/// The texts of the first children of a node are made up of lines with counts.
proof fn lemma_children_text_is_counted(nodes: Nodes, path: Seq<int>, n: nat)
    requires
        nodes.rooted(),
        path.len() > 0,
        0 <= path.last() < nodes.len(),
        n <= nodes.children(path.last()).len(),
    ensures
        exists|lines: Seq<Seq<char>>, counts: Seq<nat>| #[trigger]
            counted(
                children_text(nodes, path, n),
                lines,
                counts,
                children_micros(nodes, path.last(), n),
            ),
    decreases nodes.len() - path.last(), n,
{
    let top = path.last();
    if n == 0 {
        assert(counted(
            children_text(nodes, path, 0),
            Seq::<Seq<char>>::empty(),
            Seq::<nat>::empty(),
            children_micros(nodes, top, 0),
        ));
    } else {
        let c = nodes.children(top)[n - 1];
        lemma_children_among(nodes.parents, top, nodes.len());
        assert(nodes.parents[c] == Some(top));
        assert(path.push(c).last() == c);
        lemma_children_text_is_counted(nodes, path, (n - 1) as nat);
        lemma_text_is_counted(nodes, path.push(c));
        let (a, x) = choose|lines: Seq<Seq<char>>, counts: Seq<nat>| #[trigger]
            counted(
                children_text(nodes, path, (n - 1) as nat),
                lines,
                counts,
                children_micros(nodes, top, (n - 1) as nat),
            );
        let (b, y) = choose|lines: Seq<Seq<char>>, counts: Seq<nat>| #[trigger]
            counted(subtree_text(nodes, path.push(c)), lines, counts, written_micros(nodes, c));
        lemma_counted(
            children_text(nodes, path, (n - 1) as nat),
            a,
            x,
            children_micros(nodes, top, (n - 1) as nat),
            subtree_text(nodes, path.push(c)),
            b,
            y,
            written_micros(nodes, c),
        );
        assert(children_text(nodes, path, n) == children_text(nodes, path, (n - 1) as nat)
            + subtree_text(nodes, path.push(c)));
        assert(children_micros(nodes, top, n) == children_micros(nodes, top, (n - 1) as nat)
            + written_micros(nodes, c));
    }
}

/// The text of a node is made up of lines that end with counts, and these are together the
/// duration of the node in microseconds, if all durations are whole microseconds and no call took
/// less time than the calls that it made: the picture is as wide as the calls took.
pub proof fn law_the_text_adds_up(nodes: Nodes, path: Seq<int>)
    requires
        nodes.rooted(),
        path.len() > 0,
        0 <= path.last() < nodes.len(),
        nested_below(nodes, path.last()),
        whole_micros(nodes, path.last()),
    ensures
        exists|lines: Seq<Seq<char>>, counts: Seq<nat>| #[trigger]
            counted(
                subtree_text(nodes, path),
                lines,
                counts,
                nodes.values[path.last()].duration.nanos as nat / 1000,
            ),
{
    lemma_text_is_counted(nodes, path);
    law_counts_add_up(nodes, path.last());
}

/// What is measured of a call is in range if its node can count one call more and the time that it
/// took, and only then.
pub proof fn law_measurements_need_range(state: GraphState, k: int, now: Instant)
    ensures
        state.in_range(k, now) <==> {
            let before = state.nodes.values[state.stack[k].index.position as int];
            &&& before.num_invocations + 1 <= usize::MAX
            &&& before.duration.nanos + (if state.stack[k].start.nanos <= now.nanos {
                now.nanos - state.stack[k].start.nanos
            } else {
                0
            }) <= u128::MAX
        },
{
}

/// Times are nested if no node took less than all nodes whose parent it is, and only then; below a
/// node if that holds of the node and of all nodes that lie below it.
pub proof fn law_nested_times_cover_callees(nodes: Nodes, top: int)
    ensures
        nested(nodes) <==> forall|i: int|
            #![trigger nodes.values[i]]
            0 <= i < nodes.len() ==> nodes.values[i].duration.nanos >= nanos_together(
                nodes,
                callees(nodes, i),
            ),
        nested_below(nodes, top) <==> forall|i: int|
            #![trigger nodes.values[i]]
            0 <= i < nodes.len() && at_or_below(nodes, top, i) ==> nodes.values[i].duration.nanos
                >= nanos_together(nodes, callees(nodes, i)),
{
    assert forall|i: int|
        #![trigger nodes.values[i]]
        #![trigger own_nanos(nodes, i)]
        own_nanos(nodes, i) + nanos_together(nodes, callees(nodes, i))
            == nodes.values[i].duration.nanos by {
        law_own_time_is_what_callees_leave(nodes, i);
    }
}

/// A node lies below another one if its parent is that one or lies below it, and only then.
pub proof fn law_what_lies_below(nodes: Nodes, top: int, i: int)
    requires
        nodes.rooted(),
        0 <= i < nodes.len(),
    ensures
        at_or_below(nodes, top, top),
        i != top ==> (at_or_below(nodes, top, i) <==> (nodes.parents[i] is Some && at_or_below(
            nodes,
            top,
            nodes.parents[i]->0,
        ))),
{
}

/// The numbers of the nodes along a path are those of its visitors, in their order; and a path lies
/// in a trie if all its visitors do.
pub proof fn law_a_path_is_numbered(
    path: Seq<Visitor<'_, CallSite, Measurement>>,
    nodes: Nodes,
    index: Index,
)
    ensures
        numbers(path).len() == path.len(),
        forall|k: int| 0 <= k < path.len() ==> #[trigger] numbers(path)[k] == path[k].position,
        within(path, nodes) <==> forall|k: int|
            0 <= k < path.len() ==> (#[trigger] path[k]).wf() && path[k].trie@ == nodes,
        link(Some(index)) == Some(index.position as int),
        link(None) is None,
{
}

/// Whatever can be called on any flame graph in order can be handed one.
pub proof fn law_callable_is_callable<F: Fn(&FlameGraph) -> Option<String>>(f: F)
    ensures
        graph_callable(f) <==> forall|graph: &FlameGraph|
            graph.wf() ==> #[trigger] call_requires(f, (graph,)),
{
}

} // verus!
