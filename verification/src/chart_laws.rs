//! What holds of flame charts as a whole.

use vstd::prelude::*;

use crate::collapse::{
    chartable, in_range, lemma_lineage_more, lineage_within, micros_of, rooted, shadow, shadow_among,
};
use crate::flamechart::{
    callable, closes_with, closing_delta, dated, deepest, has_depth, lemma_deepest, names, placed, raw_message, relinked,
    reports, says, source, Callsite, ChartState, Closing, IndexRef, Until, CAPACITY,
};
use crate::logging::{law_discards_are_errors, text_of, views, Level, RecordView};
use crate::text::{decimal, law_decimal_reads_back, law_numerals_are_unique, listed, numeral};
use crate::time::{Duration, SystemTime};

verus! {

impl ChartState {
    /// Whether no event has the id `uuid`.
    pub open spec fn lacks(self, uuid: nat) -> bool {
        forall|i: int| 0 <= i < self.trace.len() ==> (#[trigger] self.trace[i]).uuid != uuid
    }
}

/// What holds of a trace after the event of a span was put at its end: the events form one tree,
/// and `max_depth` is the depth of the deepest one.
proof fn lemma_appending(state: ChartState, name: &'static str, loc: &'static str, now: SystemTime)
    requires
        state.sound(),
        state.uuid < usize::MAX,
    ensures
        forall|i: int|
            0 <= i <= state.trace.len() ==> #[trigger] placed(
                state.appended(name, loc, now).trace,
                i,
            ),
        state.appended(name, loc, now).exact(),
        state.appended(name, loc, now).bounded(),
        has_depth(
            state.appended(name, loc, now).trace,
            state.appended(name, loc, now).max_depth,
        ),
{
    let grown = state.appended(name, loc, now);
    lemma_deepest(state.trace);
    assert(grown.trace.drop_last() =~= state.trace);
    assert(state.next_depth() <= state.uuid);
    assert(grown.trace.last().depth == state.next_depth());
    lemma_deepest(grown.trace);
    assert forall|i: int| 0 <= i <= state.trace.len() implies #[trigger] placed(grown.trace, i) by {
        if i < state.trace.len() {
            assert(placed(state.trace, i));
        }
    }
}

/// Opening a span keeps the events of a trace one tree: every event but the first has its parent
/// in the trace, above it. An event that gives way to another is nobody's parent.
proof fn lemma_opening_keeps_the_tree(
    state: ChartState,
    entry_points: Option<Seq<&'static str>>,
    name: &'static str,
    loc: &'static str,
    now: SystemTime,
    next: ChartState,
    source: Option<IndexRef>,
)
    requires
        state.admits(entry_points, name) ==> state.uuid < usize::MAX,
        state.sound(),
        state.pushes(entry_points, name, loc, now, next, source),
    ensures
        next.linked(),
        next.bounded(),
        next.exact(),
        next.located(),
        state.admits(entry_points, name) ==> source is Some,
{
    let grown = state.appended(name, loc, now);
    if state.refuses(entry_points, name) || state.orphaned() || state.crowded_out() {
    } else {
        lemma_appending(state, name, loc, now);
        lemma_deepest(grown.trace);
        if let Some(s) = source {
            let gone = s.index as int;
            let last = grown.trace.len() - 1;
            if state.trace.len() >= CAPACITY {
                assert(placed(grown.trace, 0));
                assert(placed(grown.trace, gone));
                lemma_deepest(next.trace);
                assert forall|i: int| 0 <= i < next.trace.len() implies #[trigger] placed(next.trace, i) by {
                    let from = if i == gone { last } else { i };
                    assert(placed(grown.trace, from));
                    assert(next.trace[i] == grown.trace[from]);
                    if let Some(p) = grown.trace[from].parent {
                        assert(p != gone);
                        if from < last {
                            assert(placed(state.trace, from));
                        }
                        assert(next.trace[p as int] == grown.trace[p as int]);
                    }
                }
                let d = choose|d: int|
                    0 <= d < next.trace.len() && #[trigger] next.trace[d].depth == deepest(next.trace);
                assert(next.trace[d] == grown.trace[if d == gone { last } else { d }]);
                assert forall|id: usize| #[trigger] next.moves.dom().contains(id) implies next.moves[id]
                    < next.trace.len() && next.trace[next.moves[id] as int].uuid == id by {
                    assert(state.moves.dom().contains(id));
                }
            } else {
                assert forall|i: int| 0 <= i < next.trace.len() implies #[trigger] placed(next.trace, i) by {
                    assert(placed(grown.trace, i));
                }
                assert forall|id: usize| #[trigger] next.moves.dom().contains(id) implies next.moves[id]
                    < next.trace.len() && next.trace[next.moves[id] as int].uuid == id by {
                    assert(state.moves.dom().contains(id));
                }
            }
        }
    }
}

/// Opening a span keeps the times of the events as deltas against the first one.
proof fn lemma_opening_keeps_the_dates(
    state: ChartState,
    entry_points: Option<Seq<&'static str>>,
    name: &'static str,
    loc: &'static str,
    now: SystemTime,
    next: ChartState,
    source: Option<IndexRef>,
)
    requires
        state.sound(),
        state.admits(entry_points, name) ==> source is Some && state.uuid < usize::MAX,
        state.pushes(entry_points, name, loc, now, next, source),
    ensures
        next.clocked(),
{
    let grown = state.appended(name, loc, now);
    if let Some(s) = source {
        if state.trace.len() > 0 {
            assert(placed(state.trace, 0));
            lemma_appending(state, name, loc, now);
            assert(s.index != 0);
        }
        assert forall|i: int| 0 <= i < next.trace.len() implies #[trigger] dated(next.trace, i) by {
            let from = if i == s.index { grown.trace.len() - 1 } else { i };
            assert(next.trace[i] == grown.trace[from]);
            if from < state.trace.len() {
                assert(dated(state.trace, from));
            }
        }
    }
}

/// What holds of every trace is kept by opening a span: there is a maximum number of events,
/// they form one tree, each has an id of its own, `max_depth` is the depth of the deepest one,
/// and their times are given as deltas against the first one. A span that is not refused,
/// orphaned or crowded out always gets an event.
pub proof fn law_opening_keeps_what_holds(
    state: ChartState,
    entry_points: Option<Seq<&'static str>>,
    name: &'static str,
    loc: &'static str,
    now: SystemTime,
    next: ChartState,
    source: Option<IndexRef>,
)
    requires
        state.admits(entry_points, name) ==> state.uuid < usize::MAX,
        state.sound(),
        state.pushes(entry_points, name, loc, now, next, source),
    ensures
        next.sound(),
        state.admits(entry_points, name) <==> source is Some,
{
    lemma_opening_keeps_the_tree(state, entry_points, name, loc, now, next, source);
    lemma_opening_keeps_the_dates(state, entry_points, name, loc, now, next, source);
}

/// Events at the same depths are equally deep.
proof fn lemma_same_depths(a: Seq<Callsite>, b: Seq<Callsite>)
    requires
        a.len() == b.len(),
        forall|i: int| 0 <= i < a.len() ==> (#[trigger] a[i]).depth == b[i].depth,
    ensures
        deepest(a) == deepest(b),
    decreases a.len(),
{
    if a.len() > 0 {
        let x = a.drop_last();
        let y = b.drop_last();
        assert forall|i: int| 0 <= i < x.len() implies (#[trigger] x[i]).depth == y[i].depth by {
            assert(x[i] == a[i]);
        }
        lemma_same_depths(x, y);
        assert(a[a.len() - 1].depth == b[b.len() - 1].depth);
    }
}

/// Ending an inner span keeps the events one tree.
pub proof fn lemma_ending_keeps_the_tree(state: ChartState, i: int, now: SystemTime)
    requires
        state.sound(),
        0 <= i < state.trace.len(),
        state.trace[i].parent is Some,
    ensures
        (ChartState { current: state.trace[i].parent, ..state.ended(i, now) }).sound(),
        state.trace[i].parent != Some(i as usize),
        0 < i,
{
    let back = ChartState { current: state.trace[i].parent, ..state.ended(i, now) };
    assert(placed(state.trace, i));
    assert(placed(state.trace, 0));
    assert forall|j: int| 0 <= j < back.trace.len() implies #[trigger] placed(back.trace, j) by {
        assert(placed(state.trace, j));
    }
    assert forall|j: int| 0 <= j < back.trace.len() implies #[trigger] dated(back.trace, j) by {
        assert(dated(state.trace, j));
    }
    lemma_same_depths(state.trace, back.trace);
    assert forall|id: usize| #[trigger] back.moves.dom().contains(id) implies back.moves[id]
        < back.trace.len() && back.trace[back.moves[id] as int].uuid == id by {
        assert(state.moves.dom().contains(id));
    }
}

/// Dropping an inner event keeps all that holds.
proof fn lemma_dropping_keeps_what_holds(state: ChartState, i: int)
    requires
        state.sound(),
        0 < i < state.trace.len(),
        state.current is Some,
        state.current != Some(i as usize),
    ensures
        state.without_event(i).sound(),
{
    let next = state.without_event(i);
    let last = state.trace.len() - 1;
    assert(placed(state.trace, i));
    assert(placed(state.trace, 0));
    assert forall|j: int| 0 <= j < next.trace.len() implies #[trigger] placed(next.trace, j) by {
        let from = if j == i { last } else { j };
        assert(placed(state.trace, from));
        assert(next.trace[j].depth == state.trace[from].depth);
        assert(next.trace[j].parent == relinked(state.trace, i, state.trace[from].parent));
        if let Some(p) = state.trace[from].parent {
            let q = if p == i { state.trace[i].parent->0 as int } else { p as int };
            let to = if q == last { i } else { q };
            assert(q != i);
            assert(next.trace[to].depth == state.trace[q].depth);
            assert(next.trace[j].parent == Some(to as usize));
        }
    }
    lemma_deepest(state.trace);
    lemma_deepest(next.trace);
    let d = choose|d: int|
        0 <= d < next.trace.len() && #[trigger] next.trace[d].depth == deepest(next.trace);
    assert(next.trace[d].depth == state.trace[if d == i { last } else { d }].depth);
    assert forall|j: int| 0 <= j < next.trace.len() implies #[trigger] dated(next.trace, j) by {
        let from = if j == i { last } else { j };
        assert(dated(state.trace, from));
        assert(next.trace[0].start == state.trace[0].start);
    }
    assert forall|j: int| 0 <= j < next.trace.len() implies (#[trigger] next.trace[j]).uuid
        == state.trace[if j == i { last } else { j }].uuid by {
    }
    assert forall|id: usize| #[trigger] next.moves.dom().contains(id) implies next.moves[id]
        < next.trace.len() && next.trace[next.moves[id] as int].uuid == id by {
        if i != last && id == state.trace[last].uuid {
            assert(next.moves[id] == i);
        } else {
            assert(state.moves.dom().contains(id));
        }
    }
}

/// What holds of every trace is kept by closing a guard, in whatever order guards are closed and
/// whatever the clock says.
pub proof fn law_closing_keeps_what_holds(
    state: ChartState,
    source: IndexRef,
    now: SystemTime,
    minimum: Option<Duration>,
)
    requires
        state.sound(),
    ensures
        state.popped(source, now, minimum).sound(),
{
    if !state.stale(source) {
        let i = state.at(source);
        if state.trace[i].parent is Some {
            lemma_ending_keeps_the_tree(state, i, now);
            if state.too_short(i, now, minimum) {
                lemma_dropping_keeps_what_holds(
                    ChartState { current: state.trace[i].parent, ..state.ended(i, now) },
                    i,
                );
            }
        }
    }
}

/// Whether a span that is opened leads from one state to another.
pub open spec fn opens(from: ChartState, to: ChartState) -> bool {
    exists|
        entry_points: Option<Seq<&'static str>>,
        name: &'static str,
        loc: &'static str,
        now: SystemTime,
        source: Option<IndexRef>,
    |
        {
            &&& #[trigger] from.pushes(entry_points, name, loc, now, to, source)
            &&& from.admits(entry_points, name) ==> from.uuid < usize::MAX
        }
}

/// Whether a guard that is closed leads from one state to another.
pub open spec fn closes(from: ChartState, to: ChartState) -> bool {
    exists|source: IndexRef, now: SystemTime, minimum: Option<Duration>|
        to == #[trigger] from.popped(source, now, minimum)
}

/// Whether step `k` of a history opens a span or closes a guard.
pub open spec fn proceeds(history: Seq<ChartState>, k: int) -> bool {
    opens(history[k], history[k + 1]) || closes(history[k], history[k + 1])
}

/// There is a maximum number of events per trace: however many spans are opened and guards are
/// closed, in whatever order and over however many traces, there never are more than
/// [`CAPACITY`] events, and never one that could not be placed.
pub proof fn law_capacity_holds(history: Seq<ChartState>, n: int)
    requires
        history.len() > 0,
        history[0] == ChartState::initial(),
        forall|k: int| 0 <= k < history.len() - 1 ==> #[trigger] proceeds(history, k),
        0 <= n < history.len(),
    ensures
        history[n].sound(),
        history[n].trace.len() <= 100_000,
        !history[n].consistency_violation,
    decreases n,
{
    if n > 0 {
        law_capacity_holds(history, n - 1);
        let from = history[n - 1];
        let to = history[n];
        assert(proceeds(history, n - 1));
        if opens(from, to) {
            let (entry_points, name, loc, now, source) = choose|
                entry_points: Option<Seq<&'static str>>,
                name: &'static str,
                loc: &'static str,
                now: SystemTime,
                source: Option<IndexRef>,
            |
                {
                    &&& #[trigger] from.pushes(entry_points, name, loc, now, to, source)
                    &&& from.admits(entry_points, name) ==> from.uuid < usize::MAX
                };
            law_opening_keeps_what_holds(from, entry_points, name, loc, now, to, source);
        } else {
            let (source, now, minimum) = choose|
                source: IndexRef,
                now: SystemTime,
                minimum: Option<Duration>,
            | to == #[trigger] from.popped(source, now, minimum);
            law_closing_keeps_what_holds(from, source, now, minimum);
        }
    }
}

/// What is discarded for volume is reported: if a span gets no event because the trace is full,
/// or an event gives way to it, the trace is marked as trimmed until it is complete.
pub proof fn law_discards_are_marked(
    state: ChartState,
    entry_points: Option<Seq<&'static str>>,
    name: &'static str,
    loc: &'static str,
    now: SystemTime,
    next: ChartState,
    source: Option<IndexRef>,
    closing: IndexRef,
    minimum: Option<Duration>,
)
    requires
        state.sound(),
        state.pushes(entry_points, name, loc, now, next, source),
    ensures
        next.trimmed == (state.trimmed || state.trace.len() >= CAPACITY),
        !state.completes(closing) ==> state.popped(closing, now, minimum).trimmed == state.trimmed,
{
}

/// Closing a guard takes nothing from the guards of other open spans, unless it completes the
/// trace: each of them still stands for its event, wherever that was moved.
pub proof fn law_closing_keeps_other_guards(
    state: ChartState,
    source: IndexRef,
    other: IndexRef,
    now: SystemTime,
    minimum: Option<Duration>,
)
    requires
        state.sound(),
        !state.completes(source),
        !state.stale(other),
        state.trace[state.at(other)].end is None,
        other.uuid != source.uuid,
    ensures
        !state.popped(source, now, minimum).stale(other),
        state.popped(source, now, minimum).trace[state.popped(source, now, minimum).at(other)].uuid
            == other.uuid,
        exists|j: int| #[trigger] guards(state.popped(source, now, minimum), other, j),
{
    law_closing_keeps_what_holds(state, source, now, minimum);
    let next = state.popped(source, now, minimum);
    assert(state.trace[state.at(other)].uuid == other.uuid);
    if !state.stale(source) {
        let i = state.at(source);
        assert(state.trace[i].uuid == source.uuid);
        if state.too_short(i, now, minimum) {
            let j = state.at(other);
            let last = state.trace.len() - 1;
            assert(j != i);
            if j != last {
                assert(next.trace[j].uuid == other.uuid);
            } else {
                assert(next.moves.dom().contains(other.uuid));
            }
        }
        if !next.in_place(other) {
            assert(next.moves.dom().contains(other.uuid));
        }
    }
    assert(guards(next, other, next.at(other)));
}

/// Every inner span that took less than the minimum is dropped when its guard is closed.
pub proof fn law_short_spans_are_dropped(
    state: ChartState,
    source: IndexRef,
    now: SystemTime,
    minimum: Option<Duration>,
)
    requires
        state.sound(),
        !state.stale(source),
        !state.completes(source),
        state.too_short(state.at(source), now, minimum),
    ensures
        state.popped(source, now, minimum).lacks(source.uuid as nat),
        state.popped(source, now, minimum).trace.len() == state.trace.len() - 1,
{
    let i = state.at(source);
    let next = state.popped(source, now, minimum);
    let last = state.trace.len() - 1;
    assert(state.trace[i].uuid == source.uuid);
    assert forall|j: int| 0 <= j < next.trace.len() implies (#[trigger] next.trace[j]).uuid
        != source.uuid by {
        let from = if j == i { last } else { j };
        assert(next.trace[j].uuid == state.trace[from].uuid);
        assert(from != i);
    }
}

impl ChartState {
    /// Whether no span that took less than `minimum` is recorded, but for the outermost one.
    pub open spec fn lasting(self, minimum: Duration) -> bool {
        forall|i: int|
            0 < i < self.trace.len() ==> ((#[trigger] self.trace[i]).end matches Some(length)
                ==> length.nanos >= minimum.nanos)
    }
}

/// No span that took less than the minimum is left in a trace, but for the outermost one, as
/// long as the minimum stays the same: opening a span and closing a guard leave none.
pub proof fn law_no_short_span_is_left(
    state: ChartState,
    minimum: Duration,
    entry_points: Option<Seq<&'static str>>,
    name: &'static str,
    loc: &'static str,
    now: SystemTime,
    opened: ChartState,
    source: Option<IndexRef>,
    closing: IndexRef,
)
    requires
        state.admits(entry_points, name) ==> state.uuid < usize::MAX,
        state.sound(),
        state.lasting(minimum),
        state.pushes(entry_points, name, loc, now, opened, source),
    ensures
        opened.lasting(minimum),
        state.popped(closing, now, Some(minimum)).lasting(minimum),
{
    law_opening_keeps_what_holds(state, entry_points, name, loc, now, opened, source);
    let closed = state.popped(closing, now, Some(minimum));
    if !state.stale(closing) {
        let i = state.at(closing);
        let last = state.trace.len() - 1;
        assert(placed(state.trace, i));
        if state.trace[i].parent is Some && state.too_short(i, now, Some(minimum)) {
            assert forall|j: int| 0 < j < closed.trace.len() implies ((
            #[trigger] closed.trace[j]).end matches Some(length) ==> length.nanos
                >= minimum.nanos) by {
                let from = if j == i { last } else { j };
                assert(from != i);
                assert(closed.trace[j].end == state.trace[from].end);
            }
        }
    }
}

/// The id of the parent of the event at `i`.
pub open spec fn parent_id(trace: Seq<Callsite>, i: int) -> Option<usize> {
    match trace[i].parent {
        Some(p) => Some(trace[p as int].uuid),
        None => None,
    }
}

/// The id of the event of the innermost open span.
pub open spec fn current_id(state: ChartState) -> Option<usize> {
    match state.current {
        Some(c) => Some(state.trace[c as int].uuid),
        None => None,
    }
}

/// Opening a span links its event to that of the innermost open span, and leaves the links of
/// all other events that stay: each leads to the same span as before.
pub proof fn law_opening_keeps_the_links(
    state: ChartState,
    entry_points: Option<Seq<&'static str>>,
    name: &'static str,
    loc: &'static str,
    now: SystemTime,
    next: ChartState,
    source: Option<IndexRef>,
    i: int,
    j: int,
)
    requires
        state.admits(entry_points, name) ==> state.uuid < usize::MAX,
        state.sound(),
        state.pushes(entry_points, name, loc, now, next, source),
    ensures
        source matches Some(s) ==> next.trace[s.index as int].uuid == s.uuid && parent_id(
            next.trace,
            s.index as int,
        ) == current_id(state),
        0 <= i < state.trace.len() && 0 <= j < next.trace.len() && state.trace[i].uuid
            == next.trace[j].uuid ==> parent_id(next.trace, j) == parent_id(state.trace, i),
{
    law_opening_keeps_what_holds(state, entry_points, name, loc, now, next, source);
    let grown = state.appended(name, loc, now);
    if let Some(s) = source {
        let gone = s.index as int;
        let last = grown.trace.len() - 1;
        lemma_appending(state, name, loc, now);
        lemma_deepest(grown.trace);
        assert(placed(grown.trace, last));
        assert(next.trace[gone] == grown.trace[last]);
        assert(placed(next.trace, gone));
        if let Some(p) = state.current {
            assert(next.trace[p as int] == state.trace[p as int]);
        }
        if 0 <= i < state.trace.len() && 0 <= j < next.trace.len() && state.trace[i].uuid
            == next.trace[j].uuid {
            assert(j != gone);
            assert(next.trace[j] == state.trace[j]);
            assert(i == j);
            assert(placed(state.trace, i));
            assert(placed(next.trace, i));
            if let Some(p) = state.trace[i].parent {
                assert(p != gone) by {
                    if state.trace.len() >= CAPACITY && p == gone {
                        assert(grown.trace[i].depth <= deepest(grown.trace));
                    }
                }
                assert(next.trace[p as int] == state.trace[p as int]);
            }
        }
    }
}

/// Closing a guard leaves the links of all events that stay, wherever they are moved: each leads
/// to the same span as before; or, if that span was too short and was dropped, to the one around
/// it.
pub proof fn law_closing_keeps_the_links(
    state: ChartState,
    source: IndexRef,
    now: SystemTime,
    minimum: Option<Duration>,
    i: int,
    j: int,
)
    requires
        state.sound(),
        0 <= i < state.trace.len(),
        0 <= j < state.popped(source, now, minimum).trace.len(),
        state.trace[i].uuid == state.popped(source, now, minimum).trace[j].uuid,
    ensures
        parent_id(state.popped(source, now, minimum).trace, j) == if !state.stale(source)
            && state.too_short(state.at(source), now, minimum) && state.trace[i].parent == Some(
            state.at(source) as usize,
        ) {
            parent_id(state.trace, state.at(source))
        } else {
            parent_id(state.trace, i)
        },
        i == 0 <==> j == 0,
{
    let next = state.popped(source, now, minimum);
    law_closing_keeps_what_holds(state, source, now, minimum);
    assert(placed(state.trace, i));
    assert(placed(state.trace, 0));
    if !state.stale(source) {
        let x = state.at(source);
        let last = state.trace.len() - 1;
        assert(state.trace[x].parent is Some);
        assert(placed(state.trace, x));
        let ended = state.ended(x, now).trace;
        if state.too_short(x, now, minimum) {
            let from = if j == x { last } else { j };
            assert(next.trace[j].uuid == state.trace[from].uuid);
            assert(from == i);
            assert(next.trace[j].parent == relinked(ended, x, state.trace[i].parent));
            if let Some(p) = state.trace[i].parent {
                let q = if p == x { state.trace[x].parent->0 as int } else { p as int };
                let to = if q == last { x } else { q };
                assert(q != x);
                assert(next.trace[to].uuid == state.trace[q].uuid);
            }
        } else {
            assert(next.trace[j].uuid == state.trace[j].uuid);
            assert(i == j);
            if let Some(p) = state.trace[i].parent {
                assert(next.trace[p as int].uuid == state.trace[p as int].uuid);
            }
        }
    } else {
        assert(i == j);
    }
}

/// A state together with the guards that are not closed, outermost first.
pub ghost struct Run {
    /// What is recorded.
    pub state: ChartState,
    /// The guards of the spans that are open and got an event.
    pub guards: Seq<IndexRef>,
}

/// Whether a span that is opened leads from one run to another, with `source` for its event.
pub open spec fn run_opens(from: Run, to: Run, source: Option<IndexRef>) -> bool {
    &&& exists|
        entry_points: Option<Seq<&'static str>>,
        name: &'static str,
        loc: &'static str,
        now: SystemTime,
    |
        {
            &&& #[trigger] from.state.pushes(entry_points, name, loc, now, to.state, source)
            &&& from.state.admits(entry_points, name) ==> from.state.uuid < usize::MAX
        }
    &&& to.guards == match source {
        Some(s) => from.guards.push(s),
        None => from.guards,
    }
}

/// Whether closing the innermost guard leads from one run to another, while no minimum is set.
pub open spec fn run_closes(from: Run, to: Run) -> bool {
    &&& from.guards.len() > 0
    &&& exists|now: SystemTime|
        to.state == #[trigger] from.state.popped(from.guards.last(), now, None)
    &&& to.guards == from.guards.drop_last()
}

/// Whether step `k` of a history opens a span, or closes the guard of the innermost one.
pub open spec fn run_proceeds(history: Seq<Run>, k: int) -> bool {
    ||| exists|source: Option<IndexRef>| #[trigger] run_opens(history[k], history[k + 1], source)
    ||| run_closes(history[k], history[k + 1])
}

impl Run {
    /// Whether the guard at position `g` stands for an event, whose parent is that of the next
    /// outer guard.
    pub open spec fn stands(self, g: int) -> bool {
        &&& self.state.in_place(self.guards[g])
        &&& self.state.trace[self.guards[g].index as int].parent == if g == 0 {
            None
        } else {
            Some(self.guards[g - 1].index)
        }
    }

    /// Whether the guards stand for the events along the path to the innermost open span.
    pub open spec fn paired(self) -> bool {
        &&& forall|g: int| 0 <= g < self.guards.len() ==> #[trigger] self.stands(g)
        &&& self.state.current == if self.guards.len() == 0 {
            None
        } else {
            Some(self.guards.last().index)
        }
    }
}

/// The events of outer guards do not lie deeper.
proof fn lemma_guards_go_down(run: Run, g: int)
    requires
        run.state.sound(),
        run.paired(),
        0 <= g < run.guards.len(),
    ensures
        run.state.trace[run.guards[g].index as int].depth
            <= run.state.trace[run.guards.last().index as int].depth,
    decreases run.guards.len() - g,
{
    if g < run.guards.len() - 1 {
        lemma_guards_go_down(run, g + 1);
        assert(run.stands(g + 1));
        assert(placed(run.state.trace, run.guards[g + 1].index as int));
    }
}

/// Opening a span keeps the guards with the events along the path.
proof fn lemma_opening_keeps_the_guards(from: Run, to: Run, source: Option<IndexRef>)
    requires
        from.state.sound(),
        from.paired(),
        run_opens(from, to, source),
    ensures
        to.state.sound(),
        to.paired(),
{
    let (entry_points, name, loc, now) = choose|
        entry_points: Option<Seq<&'static str>>,
        name: &'static str,
        loc: &'static str,
        now: SystemTime,
    |
        {
            &&& #[trigger] from.state.pushes(entry_points, name, loc, now, to.state, source)
            &&& from.state.admits(entry_points, name) ==> from.state.uuid < usize::MAX
        };
    let state = from.state;
    law_opening_keeps_what_holds(state, entry_points, name, loc, now, to.state, source);
    let grown = state.appended(name, loc, now);
    if let Some(s) = source {
        lemma_appending(state, name, loc, now);
        lemma_deepest(grown.trace);
        let last = grown.trace.len() - 1;
        assert(to.state.trace[s.index as int] == grown.trace[last]);
        assert forall|g: int| 0 <= g < to.guards.len() implies #[trigger] to.stands(g) by {
            if g < from.guards.len() {
                assert(from.stands(g));
                lemma_guards_go_down(from, g);
                let at = from.guards[g].index as int;
                assert(state.trace[at].depth < state.next_depth());
                assert(grown.trace[at] == state.trace[at]);
                assert(at != s.index);
                assert(to.state.trace[at] == state.trace[at]);
            }
        }
    } else {
        assert forall|g: int| 0 <= g < to.guards.len() implies #[trigger] to.stands(g) by {
            assert(from.stands(g));
        }
    }
}

/// Closing the innermost guard keeps the others with the events along the path.
proof fn lemma_closing_keeps_the_guards(from: Run, to: Run)
    requires
        from.state.sound(),
        from.paired(),
        run_closes(from, to),
    ensures
        to.state.sound(),
        to.paired(),
{
    let inner = from.guards.last();
    let now = choose|now: SystemTime| to.state == #[trigger] from.state.popped(inner, now, None);
    law_closing_keeps_what_holds(from.state, inner, now, None);
    assert(from.stands(from.guards.len() - 1));
    if from.guards.len() > 1 {
        assert forall|g: int| 0 <= g < to.guards.len() implies #[trigger] to.stands(g) by {
            assert(from.stands(g));
        }
    }
}

/// As long as guards are closed innermost first, the current event is that of the innermost open
/// span that got one: whatever spans were opened and closed, over however many traces.
pub proof fn law_the_current_span_is_the_innermost(history: Seq<Run>, n: int)
    requires
        history.len() > 0,
        history[0] == (Run { state: ChartState::initial(), guards: Seq::empty() }),
        forall|k: int| 0 <= k < history.len() - 1 ==> #[trigger] run_proceeds(history, k),
        0 <= n < history.len(),
    ensures
        history[n].state.sound(),
        history[n].paired(),
        current_id(history[n].state) == if history[n].guards.len() == 0 {
            None
        } else {
            Some(history[n].guards.last().uuid)
        },
    decreases n,
{
    if n > 0 {
        law_the_current_span_is_the_innermost(history, n - 1);
        let from = history[n - 1];
        let to = history[n];
        assert(run_proceeds(history, n - 1));
        if run_closes(from, to) {
            lemma_closing_keeps_the_guards(from, to);
        } else {
            let source = choose|source: Option<IndexRef>| #[trigger] run_opens(from, to, source);
            lemma_opening_keeps_the_guards(from, to, source);
        }
    }
    let run = history[n];
    if run.guards.len() > 0 {
        assert(run.stands(run.guards.len() - 1));
    }
}

/// The parent of an event is, for good, the innermost span that was open and got an event when
/// the event's own span was opened; the outermost span has none. This holds of every later state
/// of the same trace in which the event is still there, as long as guards are closed innermost
/// first and no minimum is set.
pub proof fn law_parents_lead_to_the_span_around(
    history: Seq<Run>,
    k: int,
    source: IndexRef,
    n: int,
    i: int,
)
    requires
        history.len() > 0,
        history[0] == (Run { state: ChartState::initial(), guards: Seq::empty() }),
        forall|m: int| 0 <= m < history.len() - 1 ==> #[trigger] run_proceeds(history, m),
        0 <= k < n < history.len(),
        run_opens(history[k], history[k + 1], Some(source)),
        0 <= i < history[n].state.trace.len(),
        history[n].state.trace[i].uuid == source.uuid,
    ensures
        parent_id(history[n].state.trace, i) == if history[k].guards.len() == 0 {
            None
        } else {
            Some(history[k].guards.last().uuid)
        },
    decreases n,
{
    law_the_current_span_is_the_innermost(history, k);
    law_the_current_span_is_the_innermost(history, n - 1);
    law_the_current_span_is_the_innermost(history, n);
    let from = history[n - 1];
    let to = history[n];
    if k == n - 1 {
        let (entry_points, name, loc, now) = choose|
            entry_points: Option<Seq<&'static str>>,
            name: &'static str,
            loc: &'static str,
            now: SystemTime,
        |
            {
                &&& #[trigger] from.state.pushes(entry_points, name, loc, now, to.state, Some(source))
                &&& from.state.admits(entry_points, name) ==> from.state.uuid < usize::MAX
            };
        law_opening_keeps_the_links(
            from.state,
            entry_points,
            name,
            loc,
            now,
            to.state,
            Some(source),
            0,
            0,
        );
        assert(i == source.index);
    } else {
        lemma_ids_are_not_taken_again(history, k, source, n - 1);
        assert(run_proceeds(history, n - 1));
        if run_closes(from, to) {
            let now = choose|now: SystemTime|
                to.state == #[trigger] from.state.popped(from.guards.last(), now, None);
            // No event is moved.
            assert(from.state.trace[i].uuid == source.uuid);
            law_parents_lead_to_the_span_around(history, k, source, n - 1, i);
            law_closing_keeps_the_links(from.state, from.guards.last(), now, None, i, i);
        } else {
            let opened = choose|opened: Option<IndexRef>| #[trigger] run_opens(from, to, opened);
            let (entry_points, name, loc, now) = choose|
                entry_points: Option<Seq<&'static str>>,
                name: &'static str,
                loc: &'static str,
                now: SystemTime,
            |
                {
                    &&& #[trigger] from.state.pushes(entry_points, name, loc, now, to.state, opened)
                    &&& from.state.admits(entry_points, name) ==> from.state.uuid < usize::MAX
                };
            if let Some(s) = opened {
                assert(to.state.trace[s.index as int].uuid == from.state.uuid as usize);
                assert(i != s.index);
            }
            assert(from.state.trace[i] == to.state.trace[i]);
            law_parents_lead_to_the_span_around(history, k, source, n - 1, i);
            law_opening_keeps_the_links(
                from.state,
                entry_points,
                name,
                loc,
                now,
                to.state,
                opened,
                i,
                i,
            );
        }
    }
}

/// The id of an event is not given to another one later.
proof fn lemma_ids_are_not_taken_again(history: Seq<Run>, k: int, source: IndexRef, n: int)
    requires
        history.len() > 0,
        history[0] == (Run { state: ChartState::initial(), guards: Seq::empty() }),
        forall|m: int| 0 <= m < history.len() - 1 ==> #[trigger] run_proceeds(history, m),
        0 <= k < n < history.len(),
        run_opens(history[k], history[k + 1], Some(source)),
    ensures
        source.uuid < history[n].state.uuid,
        history[n].state.uuid <= usize::MAX,
    decreases n,
{
    law_the_current_span_is_the_innermost(history, n - 1);
    let from = history[n - 1];
    let to = history[n];
    assert(run_proceeds(history, n - 1));
    if k < n - 1 {
        lemma_ids_are_not_taken_again(history, k, source, n - 1);
    } else {
        let (entry_points, name, loc, now) = choose|
            entry_points: Option<Seq<&'static str>>,
            name: &'static str,
            loc: &'static str,
            now: SystemTime,
        |
            {
                &&& #[trigger] from.state.pushes(entry_points, name, loc, now, to.state, Some(source))
                &&& from.state.admits(entry_points, name) ==> from.state.uuid < usize::MAX
            };
        law_opening_keeps_what_holds(
            from.state,
            entry_points,
            name,
            loc,
            now,
            to.state,
            Some(source),
        );
    }
}

/// Whether the event at `i` lies one level below its parent.
pub open spec fn one_below(trace: Seq<Callsite>, i: int) -> bool {
    trace[i].parent matches Some(p) ==> trace[i].depth == trace[p as int].depth + 1
}

impl ChartState {
    /// Whether every event lies one level below its parent.
    pub open spec fn stepped(self) -> bool {
        forall|i: int| 0 <= i < self.trace.len() ==> #[trigger] one_below(self.trace, i)
    }
}

/// Opening a span keeps every event one level below its parent.
pub proof fn law_opening_keeps_the_levels(
    state: ChartState,
    entry_points: Option<Seq<&'static str>>,
    name: &'static str,
    loc: &'static str,
    now: SystemTime,
    next: ChartState,
    source: Option<IndexRef>,
)
    requires
        state.admits(entry_points, name) ==> state.uuid < usize::MAX,
        state.sound(),
        state.stepped(),
        state.pushes(entry_points, name, loc, now, next, source),
    ensures
        next.stepped(),
{
    law_opening_keeps_what_holds(state, entry_points, name, loc, now, next, source);
    let grown = state.appended(name, loc, now);
    if let Some(s) = source {
        lemma_appending(state, name, loc, now);
        lemma_deepest(grown.trace);
        let last = grown.trace.len() - 1;
        assert forall|i: int| 0 <= i < next.trace.len() implies #[trigger] one_below(next.trace, i) by {
            let from = if i == s.index { last } else { i };
            assert(next.trace[i] == grown.trace[from]);
            assert(placed(grown.trace, from));
            if from < last {
                assert(one_below(state.trace, from));
                assert(placed(state.trace, from));
            }
            if let Some(p) = grown.trace[from].parent {
                if p == s.index && state.trace.len() >= CAPACITY {
                    assert(grown.trace[from].depth <= deepest(grown.trace));
                }
                assert(next.trace[p as int] == state.trace[p as int]);
            }
        }
    }
}

/// Closing a guard keeps every event one level below its parent, unless it drops an event that
/// is a parent.
pub proof fn law_closing_keeps_the_levels(
    state: ChartState,
    source: IndexRef,
    now: SystemTime,
    minimum: Option<Duration>,
)
    requires
        state.sound(),
        state.stepped(),
        state.stale(source) || !state.too_short(state.at(source), now, minimum) || (forall|j: int|
            0 <= j < state.trace.len() ==> (#[trigger] state.trace[j]).parent != Some(
                state.at(source) as usize,
            )),
    ensures
        state.popped(source, now, minimum).stepped(),
{
    let next = state.popped(source, now, minimum);
    if !state.stale(source) && state.trace[state.at(source)].parent is Some {
        let x = state.at(source);
        let last = state.trace.len() - 1;
        let short = state.too_short(x, now, minimum);
        assert forall|i: int| 0 <= i < next.trace.len() implies #[trigger] one_below(next.trace, i) by {
            let from = if short && i == x { last } else { i };
            assert(placed(state.trace, from));
            assert(one_below(state.trace, from));
            assert(next.trace[i].depth == state.trace[from].depth);
            if let Some(p) = state.trace[from].parent {
                assert(!short || p != x);
                let to = if short && p == last { x } else { p as int };
                assert(next.trace[i].parent == Some(to as usize));
                assert(next.trace[to].depth == state.trace[p as int].depth);
            }
        }
    }
}

/// The times that an event tells are deltas against the oldest parent in the span tree, which is
/// the first event: zero for that event itself, and for a span that is over, if the clock was
/// not set back, the time from the opening of that parent to the closing of the span.
pub proof fn law_times_are_deltas(state: ChartState, i: int, now: SystemTime)
    requires
        state.sound(),
        0 <= i < state.trace.len(),
        state.trace[0].start.nanos <= state.trace[i].start.nanos <= now.nanos,
        now.nanos - state.trace[0].start.nanos <= i128::MAX,
    ensures
        state.trace[0].parent is None,
        state.trace[0].start_delta.nanos == 0,
        state.trace[i].start_delta.nanos == state.trace[i].start.nanos
            - state.trace[0].start.nanos,
        state.trace[i].end matches Some(length) ==> state.trace[i].end_delta == Some(
            Duration {
                nanos: (state.trace[i].start.nanos + length.nanos - state.trace[0].start.nanos) as u128,
            },
        ),
        state.ended(i, now).trace[i].end_delta == Some(
            Duration { nanos: (now.nanos - state.trace[0].start.nanos) as u128 },
        ),
        state.ended(i, now).trace[i].start_delta == state.trace[i].start_delta,
{
    assert(placed(state.trace, 0));
    assert(dated(state.trace, 0));
    assert(dated(state.trace, i));
}

/// Every call is an event of its own: a span that is recorded gets an id that no other event
/// has, and all events keep having ids of their own.
pub proof fn law_every_call_is_an_event(
    state: ChartState,
    entry_points: Option<Seq<&'static str>>,
    name: &'static str,
    loc: &'static str,
    now: SystemTime,
    next: ChartState,
    source: Option<IndexRef>,
)
    requires
        state.admits(entry_points, name) ==> state.uuid < usize::MAX,
        state.identified(),
        state.pushes(entry_points, name, loc, now, next, source),
    ensures
        next.identified(),
        source matches Some(s) ==> {
            &&& state.lacks(s.uuid as nat)
            &&& !next.stale(s)
            &&& next.current == Some(s.index)
            &&& next.trace[s.index as int] == state.event(name, loc, now)
        },
        state.trace.len() < CAPACITY && source is Some ==> next.trace == state.trace.push(
            state.event(name, loc, now),
        ),
{
}

/// A guard whose event is gone, because it gave way to another, was too short or belonged to a
/// trace that is complete, never closes the span of another event: closing it changes nothing,
/// now or after any span was opened or any guard was closed.
pub proof fn law_a_lost_guard_closes_nothing(
    state: ChartState,
    lost: IndexRef,
    entry_points: Option<Seq<&'static str>>,
    name: &'static str,
    loc: &'static str,
    now: SystemTime,
    opened: ChartState,
    source: Option<IndexRef>,
    closing: IndexRef,
    minimum: Option<Duration>,
)
    requires
        state.admits(entry_points, name) ==> state.uuid < usize::MAX,
        state.sound(),
        state.lacks(lost.uuid as nat),
        lost.uuid < state.uuid,
        state.pushes(entry_points, name, loc, now, opened, source),
    ensures
        state.popped(lost, now, minimum) == state,
        opened.lacks(lost.uuid as nat) && lost.uuid < opened.uuid,
        state.popped(closing, now, minimum).lacks(lost.uuid as nat) && lost.uuid < state.popped(
            closing,
            now,
            minimum,
        ).uuid,
{
}

/// Closing the guard of a span undoes opening it: the span that was the innermost open one is so
/// again, and a span that was too short leaves no trace at all, unless an event gave way to it.
pub proof fn law_closing_undoes_opening(
    state: ChartState,
    entry_points: Option<Seq<&'static str>>,
    name: &'static str,
    loc: &'static str,
    now: SystemTime,
    next: ChartState,
    source: IndexRef,
    later: SystemTime,
    minimum: Option<Duration>,
)
    requires
        state.sound(),
        state.uuid < usize::MAX,
        state.current is Some,
        state.pushes(entry_points, name, loc, now, next, Some(source)),
    ensures
        next.popped(source, later, minimum).current matches Some(c) && next.popped(
            source,
            later,
            minimum,
        ).trace[c as int].uuid == state.trace[state.current->0 as int].uuid,
        next.popped(source, later, minimum).generation == state.generation,
        state.trace.len() < CAPACITY ==> next.popped(source, later, minimum).current
            == state.current,
        state.trace.len() < CAPACITY && next.too_short(source.index as int, later, minimum)
            ==> next.popped(source, later, minimum).trace == state.trace,
        state.trace.len() < CAPACITY && !next.too_short(source.index as int, later, minimum)
            ==> next.popped(source, later, minimum).trace == state.trace.push(
            Callsite {
                end: SystemTime::between(now, later),
                end_delta: next.closing_time(source.index as int, later),
                ..state.event(name, loc, now)
            },
        ),
{
    law_opening_keeps_what_holds(state, entry_points, name, loc, now, next, Some(source));
    let closed = next.popped(source, later, minimum);
    let i = source.index as int;
    let p = state.current->0 as int;
    assert(next.trace[i] == state.event(name, loc, now));
    assert(placed(next.trace, i));
    assert(p != i);
    assert(next.trace[p] == state.trace[p]);
    if state.trace.len() < CAPACITY {
        if next.too_short(i, later, minimum) {
            assert forall|j: int| 0 <= j < next.trace.len() implies (#[trigger] next.trace[j]).parent
                != Some(i as usize) by {
                if j < i {
                    assert(placed(state.trace, j));
                    assert(next.trace[j] == state.trace[j]);
                }
            }
            assert forall|j: int| 0 <= j < closed.trace.len() implies closed.trace[j]
                == #[trigger] state.trace[j] by {
                assert(next.trace[j] == state.trace[j]);
                assert(next.trace[j].parent != Some(i as usize));
            }
            assert(closed.trace =~= state.trace);
        } else {
            assert(closed.trace =~= state.trace.push(
                Callsite {
                    end: SystemTime::between(now, later),
                    end_delta: next.closing_time(i, later),
                    ..state.event(name, loc, now)
                },
            ));
        }
    } else if next.too_short(i, later, minimum) {
        let c = closed.current->0 as int;
        assert(closed.trace[c].uuid == next.trace[p].uuid);
    }
}

/// Whether opening a span once for each of `spans`, each closed before the next one is opened,
/// leads from one state to another.
pub open spec fn calls(
    from: ChartState,
    entry_points: Option<Seq<&'static str>>,
    name: &'static str,
    loc: &'static str,
    spans: Seq<(SystemTime, SystemTime)>,
    to: ChartState,
) -> bool
    decreases spans.len(),
{
    if spans.len() == 0 {
        to == from
    } else {
        exists|mid: ChartState, open: ChartState, source: IndexRef|
            {
                &&& calls(from, entry_points, name, loc, spans.drop_last(), mid)
                &&& #[trigger] mid.pushes(
                    entry_points,
                    name,
                    loc,
                    spans.last().0,
                    open,
                    Some(source),
                )
                &&& to == open.popped(source, spans.last().1, None)
            }
    }
}

/// If a call makes the same call many times, as long as there is room, each of them is a
/// separate event with its own timing, in the order in which they were made.
pub proof fn law_calls_stay_apart(
    from: ChartState,
    entry_points: Option<Seq<&'static str>>,
    name: &'static str,
    loc: &'static str,
    spans: Seq<(SystemTime, SystemTime)>,
    to: ChartState,
)
    requires
        from.sound(),
        from.current is Some,
        from.uuid + spans.len() <= usize::MAX,
        from.trace.len() + spans.len() <= CAPACITY,
        calls(from, entry_points, name, loc, spans, to),
    ensures
        to.sound(),
        to.current == from.current,
        to.uuid == from.uuid + spans.len(),
        to.trace.len() == from.trace.len() + spans.len(),
        to.trace.take(from.trace.len() as int) == from.trace,
        forall|k: int|
            #![trigger spans[k]]
            0 <= k < spans.len() ==> {
                let site = to.trace[from.trace.len() + k];
                &&& site.name == name
                &&& site.loc == loc
                &&& site.start == spans[k].0
                &&& site.end == SystemTime::between(spans[k].0, spans[k].1)
                &&& site.parent == from.current
            },
    decreases spans.len(),
{
    if spans.len() == 0 {
        assert(from.trace.take(from.trace.len() as int) =~= from.trace);
    } else {
        let (mid, open, source) = choose|mid: ChartState, open: ChartState, source: IndexRef|
            {
                &&& calls(from, entry_points, name, loc, spans.drop_last(), mid)
                &&& #[trigger] mid.pushes(
                    entry_points,
                    name,
                    loc,
                    spans.last().0,
                    open,
                    Some(source),
                )
                &&& to == open.popped(source, spans.last().1, None)
            };
        law_calls_stay_apart(from, entry_points, name, loc, spans.drop_last(), mid);
        law_opening_keeps_what_holds(
            mid,
            entry_points,
            name,
            loc,
            spans.last().0,
            open,
            Some(source),
        );
        law_closing_keeps_what_holds(open, source, spans.last().1, None);
        law_closing_undoes_opening(
            mid,
            entry_points,
            name,
            loc,
            spans.last().0,
            open,
            source,
            spans.last().1,
            None,
        );
        assert(to.trace.take(from.trace.len() as int) =~= mid.trace.take(from.trace.len() as int));
        assert forall|k: int| #![trigger spans[k]] 0 <= k < spans.len() implies {
            let site = to.trace[from.trace.len() + k];
            &&& site.name == name
            &&& site.loc == loc
            &&& site.start == spans[k].0
            &&& site.end == SystemTime::between(spans[k].0, spans[k].1)
            &&& site.parent == from.current
        } by {
            if k < spans.len() - 1 {
                assert(spans.drop_last()[k] == spans[k]);
                assert(to.trace[from.trace.len() + k] == mid.trace[from.trace.len() + k]);
            }
        }
    }
}

/// If the names of outermost spans are limited, a trace begins with a span of one of these
/// names, or not at all.
pub proof fn law_entry_points_begin_traces(
    state: ChartState,
    names: Seq<&'static str>,
    name: &'static str,
    loc: &'static str,
    now: SystemTime,
    next: ChartState,
    source: Option<IndexRef>,
)
    requires
        state.bounded(),
        state.linked(),
        state.trace.len() > 0 ==> listed(names, state.trace[0].name@),
        state.pushes(Some(names), name, loc, now, next, source),
    ensures
        next.trace.len() > 0 ==> listed(names, next.trace[0].name@),
        state.trace.len() == 0 && !listed(names, name@) ==> next == state && source is None,
{
    if state.trace.len() > 0 {
        assert(placed(state.trace, 0));
    }
}

/// Whether the event at `i` is the one at `from` or one of its ancestors.
pub open spec fn encloses(trace: Seq<Callsite>, i: int, from: int) -> bool
    decreases from,
{
    i == from || (trace[from].parent matches Some(p) && p < from && encloses(trace, i, p as int))
}

/// Whether the span of an event is over, was kept for being no shorter than `minimum`, and was
/// over by `clock`.
pub open spec fn kept(site: Callsite, minimum: Option<Duration>, clock: SystemTime) -> bool {
    &&& site.end matches Some(length)
    &&& site.start.nanos + length.nanos <= clock.nanos
    &&& minimum matches Some(m) ==> length.nanos >= m.nanos
}

impl ChartState {
    /// Whether the span of the event at `i` is open.
    pub open spec fn is_open(self, i: int) -> bool {
        self.current matches Some(c) && encloses(self.trace, i, c as int)
    }

    /// Whether the events stand in the order in which their spans were opened, no reading of the
    /// clock was later than `clock`, and every span that is over was kept.
    pub open spec fn orderly(self, minimum: Option<Duration>, clock: SystemTime) -> bool {
        &&& self.linked()
        &&& forall|i: int|
            0 <= i < self.trace.len() ==> ((#[trigger] self.trace[i]).parent matches Some(p) ==> p
                < i)
        &&& forall|i: int|
            0 <= i < self.trace.len() ==> (#[trigger] self.trace[i]).start.nanos <= clock.nanos
        &&& forall|i: int|
            0 <= i < self.trace.len() && !self.is_open(i) ==> kept(
                #[trigger] self.trace[i],
                minimum,
                clock,
            )
        &&& forall|i: int, j: int|
            0 <= i < j < self.trace.len() && self.is_open(i) ==> (
            #[trigger] self.trace[i]).start.nanos <= (#[trigger] self.trace[j]).start.nanos
    }
}

/// What encloses an event stands before it.
proof fn lemma_enclosing_is_before(trace: Seq<Callsite>, i: int, from: int)
    requires
        encloses(trace, i, from),
    ensures
        i <= from,
    decreases from,
{
    if i != from {
        lemma_enclosing_is_before(trace, i, trace[from].parent->0 as int);
    }
}

/// What encloses an event depends on the parents of the events up to it only.
proof fn lemma_encloses_same(a: Seq<Callsite>, b: Seq<Callsite>, i: int, from: int)
    requires
        0 <= from < a.len(),
        from < b.len(),
        forall|j: int| 0 <= j <= from ==> (#[trigger] a[j]).parent == b[j].parent,
    ensures
        encloses(a, i, from) == encloses(b, i, from),
    decreases from,
{
    if i != from {
        if let Some(p) = a[from].parent {
            if p < from {
                lemma_encloses_same(a, b, i, p as int);
            }
        }
    }
    assert(a[from].parent == b[from].parent);
}

/// As long as no event gives way to another, opening a span keeps the events in order.
pub proof fn law_opening_keeps_the_order(
    state: ChartState,
    minimum: Option<Duration>,
    clock: SystemTime,
    entry_points: Option<Seq<&'static str>>,
    name: &'static str,
    loc: &'static str,
    now: SystemTime,
    next: ChartState,
    source: Option<IndexRef>,
)
    requires
        state.admits(entry_points, name) ==> state.uuid < usize::MAX,
        state.sound(),
        state.orderly(minimum, clock),
        clock.nanos <= now.nanos,
        state.trace.len() < CAPACITY || !state.admits(entry_points, name),
        state.pushes(entry_points, name, loc, now, next, source),
    ensures
        next.orderly(minimum, now),
{
    law_opening_keeps_what_holds(state, entry_points, name, loc, now, next, source);
    let len = state.trace.len() as int;
    if source is None {
        assert(next.trace == state.trace && next.current == state.current);
        assert forall|i: int| 0 <= i < next.trace.len() && !next.is_open(i) implies kept(
            #[trigger] next.trace[i],
            minimum,
            now,
        ) by {
            assert(!state.is_open(i));
        }
        assert forall|i: int, j: int|
            0 <= i < j < next.trace.len() && next.is_open(i) implies (
        #[trigger] next.trace[i]).start.nanos <= (#[trigger] next.trace[j]).start.nanos by {
            assert(state.is_open(i));
        }
    } else {
        assert forall|i: int| 0 <= i < len implies next.is_open(i) == #[trigger] state.is_open(i) by {
            if let Some(c) = state.current {
                lemma_encloses_same(state.trace, next.trace, i, c as int);
            }
        }
        assert forall|i: int| 0 <= i < next.trace.len() && !next.is_open(i) implies kept(
            #[trigger] next.trace[i],
            minimum,
            now,
        ) by {
            assert(i < len);
            assert(!state.is_open(i));
            assert(next.trace[i] == state.trace[i]);
        }
        assert forall|i: int, j: int|
            0 <= i < j < next.trace.len() && next.is_open(i) implies (
        #[trigger] next.trace[i]).start.nanos <= (#[trigger] next.trace[j]).start.nanos by {
            assert(state.is_open(i));
            assert(next.trace[i] == state.trace[i]);
            if j < len {
                assert(next.trace[j] == state.trace[j]);
            }
        }
        assert forall|i: int| 0 <= i < next.trace.len() implies ((
        #[trigger] next.trace[i]).parent matches Some(p) ==> p < i) by {
            if i < len {
                assert(next.trace[i] == state.trace[i]);
            }
        }
        assert forall|i: int| 0 <= i < next.trace.len() implies (
        #[trigger] next.trace[i]).start.nanos <= now.nanos by {
            if i < len {
                assert(next.trace[i] == state.trace[i]);
            }
        }
    }
}

/// It is safe to drop the event of a span that was too short: when the innermost open span is
/// closed and the clock was not set back, such an event is the last one, for all the spans that
/// were opened inside it were too short as well and are gone. No other event is moved or gets
/// another parent, and what is left is in order.
pub proof fn law_dropping_is_safe(
    state: ChartState,
    minimum: Option<Duration>,
    clock: SystemTime,
    source: IndexRef,
    now: SystemTime,
)
    requires
        state.sound(),
        state.orderly(minimum, clock),
        clock.nanos <= now.nanos,
        !state.stale(source),
        state.current == Some(state.at(source) as usize),
    ensures
        state.too_short(state.at(source), now, minimum) ==> state.at(source) == state.trace.len()
            - 1,
        state.too_short(state.at(source), now, minimum) && !state.completes(source)
            ==> state.popped(source, now, minimum).trace == state.trace.drop_last(),
        state.popped(source, now, minimum).orderly(minimum, now),
{
    let c = state.at(source);
    let len = state.trace.len() as int;
    let next = state.popped(source, now, minimum);
    assert(placed(state.trace, c));
    assert(state.is_open(c));
    let length = (now.nanos - state.trace[c].start.nanos) as u128;
    assert(state.length(c, now) == Some(Duration { nanos: length }));
    assert forall|j: int| c < j < len implies !(#[trigger] state.is_open(j)) by {
        if state.is_open(j) {
            lemma_enclosing_is_before(state.trace, j, c);
        }
    }
    if c != len - 1 {
        // The last event was kept, and its span lies within this one.
        let j = len - 1;
        assert(!state.is_open(j));
        assert(kept(state.trace[j], minimum, clock));
        assert(state.trace[c].start.nanos <= state.trace[j].start.nanos);
        assert(!state.too_short(c, now, minimum));
    }
    if let Some(p) = state.trace[c].parent {
        let ended = state.ended(c, now).trace;
        if state.too_short(c, now, minimum) {
            assert forall|j: int| 0 <= j < len implies (#[trigger] state.trace[j]).parent != Some(
                c as usize,
            ) by {
                assert(state.trace[j].parent matches Some(q) ==> q < j);
            }
            assert(next.trace =~= state.trace.drop_last());
        } else {
            assert(next.trace == ended);
        }
        assert forall|i: int| 0 <= i < next.trace.len() implies #[trigger] placed(next.trace, i) by {
            assert(placed(state.trace, i));
            assert(state.trace[i].parent matches Some(q) ==> q < i);
        }
        assert forall|i: int|
            0 <= i < next.trace.len() implies #[trigger] next.is_open(i) == (state.is_open(i) && i
            != c) by {
            lemma_encloses_same(state.trace, next.trace, i, p as int);
            if next.is_open(i) {
                lemma_enclosing_is_before(next.trace, i, p as int);
            }
        }
        assert forall|i: int| 0 <= i < next.trace.len() && !next.is_open(i) implies kept(
            #[trigger] next.trace[i],
            minimum,
            now,
        ) by {
            if i != c {
                assert(next.trace[i] == state.trace[i]);
                assert(!state.is_open(i));
            }
        }
        assert forall|i: int, j: int|
            0 <= i < j < next.trace.len() && next.is_open(i) implies (
        #[trigger] next.trace[i]).start.nanos <= (#[trigger] next.trace[j]).start.nanos by {
            assert(state.is_open(i));
            assert(next.trace[i].start == state.trace[i].start);
            assert(next.trace[j].start == state.trace[j].start);
        }
        assert forall|i: int| 0 <= i < next.trace.len() implies ((
        #[trigger] next.trace[i]).parent matches Some(q) ==> q < i) by {
            assert(next.trace[i].parent == state.trace[i].parent);
        }
        assert forall|i: int| 0 <= i < next.trace.len() implies (
        #[trigger] next.trace[i]).start.nanos <= now.nanos by {
            assert(next.trace[i].start == state.trace[i].start);
        }
    }
}

/// More than any span takes, in nanoseconds: `2^64` seconds.
pub open spec fn endless() -> nat {
    0x1_0000_0000_0000_0000 * 1_000_000_000
}

/// The lineage of an event in a tree is no longer than the event lies deep.
proof fn lemma_tree_is_rooted(state: ChartState, i: int)
    requires
        state.linked(),
        0 <= i < state.trace.len(),
    ensures
        lineage_within(state.trace, i, state.trace[i].depth as nat + 1) is Some,
    decreases state.trace[i].depth,
{
    assert(placed(state.trace, i));
    if let Some(p) = state.trace[i].parent {
        lemma_tree_is_rooted(state, p as int);
        lemma_lineage_more(
            state.trace,
            p as int,
            state.trace[p as int].depth as nat + 1,
            state.trace[i].depth as nat,
        );
    }
}

/// The time of `n` spans is less than `n` times the time of an endless one.
proof fn lemma_shadow_is_bounded(trace: Seq<Callsite>, parent: int, n: nat)
    requires
        n <= trace.len(),
        forall|i: int|
            0 <= i < trace.len() ==> ((#[trigger] trace[i]).end matches Some(length) ==> length.nanos
                < endless()),
    ensures
        shadow_among(trace, parent, n) <= n * (endless() / 1000),
    decreases n,
{
    if n > 0 {
        lemma_shadow_is_bounded(trace, parent, (n - 1) as nat);
        assert(micros_of(trace[n - 1]) <= endless() / 1000);
        assert(n * (endless() / 1000) == (n - 1) * (endless() / 1000) + endless() / 1000)
            by (nonlinear_arith);
    }
}

/// A trace whose events form one tree can be made into a chart.
pub proof fn law_a_tree_can_be_charted(state: ChartState)
    requires
        state.linked(),
        state.trace.len() <= CAPACITY,
        forall|i: int|
            0 <= i < state.trace.len() ==> ((
            #[trigger] state.trace[i]).end matches Some(length) ==> length.nanos < endless()),
    ensures
        chartable(state.trace),
{
    assert forall|i: int| 0 <= i < state.trace.len() implies #[trigger] rooted(state.trace, i) by {
        lemma_tree_is_rooted(state, i);
    }
    assert forall|i: int| 0 <= i < state.trace.len() implies #[trigger] shadow(state.trace, i)
        <= u128::MAX by {
        lemma_shadow_is_bounded(state.trace, i, state.trace.len());
        let n = state.trace.len();
        assert(n * (endless() / 1000) <= CAPACITY * (endless() / 1000)) by (nonlinear_arith)
            requires
                n <= CAPACITY,
        ;
    }
    assert(in_range(state.trace));
}

/// A trace begins only with a span whose name is, character by character, one of the given names;
/// a span of any other name is ignored, and one of such a name begins the trace.
pub proof fn law_only_given_names_begin_traces(
    state: ChartState,
    names: Seq<&'static str>,
    name: &'static str,
    loc: &'static str,
    now: SystemTime,
    next: ChartState,
    source: Option<IndexRef>,
)
    requires
        state.sound(),
        state.trace.len() == 0,
        state.uuid < usize::MAX,
        state.pushes(Some(names), name, loc, now, next, source),
    ensures
        next.trace.len() > 0 ==> exists|i: int|
            0 <= i < names.len() && (#[trigger] names[i])@ == name@,
        (forall|i: int| 0 <= i < names.len() ==> (#[trigger] names[i])@ != name@) ==> source is None
            && next == state,
        (exists|i: int| 0 <= i < names.len() && (#[trigger] names[i])@ == name@) ==> source is Some
            && next.trace.len() == 1,
{
}

/// Whether `site` is what is recorded of a span that is opened in `state`: its name and place, its
/// start, and the innermost open span as its parent, one level above it; it is not over.
pub open spec fn records(
    state: ChartState,
    name: &'static str,
    loc: &'static str,
    now: SystemTime,
    site: Callsite,
) -> bool {
    &&& site.name == name
    &&& site.loc == loc
    &&& site.start == now
    &&& site.end is None
    &&& site.end_delta is None
    &&& site.parent == state.current
    &&& site.uuid == state.uuid
    &&& match state.current {
        Some(p) => site.depth == state.trace[p as int].depth + 1,
        None => site.depth == 0,
    }
    &&& state.trace.len() == 0 ==> site.start_delta.nanos == 0
    &&& state.trace.len() > 0 && i128::MIN <= now.nanos - state.trace[0].start.nanos <= i128::MAX
        ==> state.trace[0].start.nanos + site.start_delta.nanos == now.nanos
}

/// As long as there are fewer than 100000 events, a span that is opened is recorded after all the
/// others, which stay as they are, and is the innermost open one. Whatever its name, unless it
/// would begin a trace and the names are limited.
pub proof fn law_opening_records_the_span(
    state: ChartState,
    entry_points: Option<Seq<&'static str>>,
    name: &'static str,
    loc: &'static str,
    now: SystemTime,
    next: ChartState,
    source: Option<IndexRef>,
)
    requires
        state.sound(),
        state.uuid < usize::MAX,
        state.trace.len() < 100_000,
        state.trace.len() > 0 || entry_points is None,
        state.pushes(entry_points, name, loc, now, next, source),
    ensures
        source == Some(
            IndexRef {
                index: state.trace.len() as usize,
                generation: source->0.generation,
                uuid: source->0.uuid,
            },
        ),
        source->0.generation == state.generation,
        source->0.uuid == state.uuid,
        next.trace.len() == state.trace.len() + 1,
        forall|i: int| 0 <= i < state.trace.len() ==> #[trigger] next.trace[i] == state.trace[i],
        records(state, name, loc, now, next.trace.last()),
        next.current == Some(state.trace.len() as usize),
        next.uuid == state.uuid + 1,
        next.generation == state.generation,
        next.trimmed == state.trimmed,
        next.consistency_violation == state.consistency_violation,
        next.start_time == Some(
            if state.trace.len() == 0 {
                now
            } else {
                state.trace[0].start
            },
        ),
{
    lemma_deepest(state.trace);
}

/// Once there are 100000 events, a span that is opened is discarded if no event lies deeper than it
/// would: nothing changes but that the trace is marked as trimmed.
pub proof fn law_a_full_trace_takes_nothing_deeper(
    state: ChartState,
    entry_points: Option<Seq<&'static str>>,
    name: &'static str,
    loc: &'static str,
    now: SystemTime,
    next: ChartState,
    source: Option<IndexRef>,
    parent: usize,
)
    requires
        state.sound(),
        state.trace.len() >= 100_000,
        state.current == Some(parent),
        forall|i: int|
            0 <= i < state.trace.len() ==> (#[trigger] state.trace[i]).depth
                <= state.trace[parent as int].depth + 1,
        state.pushes(entry_points, name, loc, now, next, source),
    ensures
        source is None,
        next == (ChartState { trimmed: true, ..state }),
{
    lemma_deepest(state.trace);
}

/// Once there are 100000 events, a span that is opened takes the place of an event that lies
/// deeper than it does, the first one of the deepest. All others stay as they are, and the trace
/// is marked as trimmed.
pub proof fn law_a_full_trace_gives_up_the_deepest(
    state: ChartState,
    entry_points: Option<Seq<&'static str>>,
    name: &'static str,
    loc: &'static str,
    now: SystemTime,
    next: ChartState,
    source: Option<IndexRef>,
    parent: usize,
    deep: int,
)
    requires
        state.sound(),
        state.uuid < usize::MAX,
        state.trace.len() >= 100_000,
        state.current == Some(parent),
        0 <= deep < state.trace.len(),
        state.trace[deep].depth > state.trace[parent as int].depth + 1,
        forall|i: int|
            0 <= i < state.trace.len() ==> (#[trigger] state.trace[i]).depth
                <= state.trace[deep].depth,
        forall|i: int|
            0 <= i < deep ==> (#[trigger] state.trace[i]).depth < state.trace[deep].depth,
        state.pushes(entry_points, name, loc, now, next, source),
    ensures
        source matches Some(s) && s.index == deep && s.generation == state.generation && s.uuid
            == state.uuid,
        next.trace.len() == state.trace.len(),
        forall|i: int|
            0 <= i < state.trace.len() && i != deep ==> #[trigger] next.trace[i] == state.trace[i],
        records(state, name, loc, now, next.trace[deep]),
        next.current == Some(deep as usize),
        next.uuid == state.uuid + 1,
        next.generation == state.generation,
        next.trimmed,
{
    lemma_deepest(state.trace);
    let d = choose|d: int|
        0 <= d < state.trace.len() && #[trigger] state.trace[d].depth == deepest(state.trace);
    assert(state.trace[d].depth <= state.trace[deep].depth);
    assert(state.max_depth == state.trace[deep].depth);
    law_opening_keeps_what_holds(state, entry_points, name, loc, now, next, source);
    let grown = state.appended(name, loc, now);
    let g = source->0.index as int;
    let last = grown.trace.len() - 1;
    assert(grown.trace[last].depth == state.next_depth());
    assert(grown.trace[deep] == state.trace[deep]);
    if g < deep {
        assert(grown.trace[g] == state.trace[g]);
    } else if deep < g {
        assert(grown.trace[deep].depth != grown.max_depth);
    }
    assert(g == deep);
    assert(next.trace[deep] == grown.trace[last]);
}

/// Whether `site` is what is left of the event `before` when its span ends: all of it, and how
/// long the span took, unless the clock was set back. `root` is when the tree began.
pub open spec fn tells_the_end(
    before: Callsite,
    root: SystemTime,
    now: SystemTime,
    site: Callsite,
) -> bool {
    &&& site.name == before.name
    &&& site.loc == before.loc
    &&& site.start == before.start
    &&& site.start_delta == before.start_delta
    &&& site.parent == before.parent
    &&& site.uuid == before.uuid
    &&& site.depth == before.depth
    &&& match site.end {
        Some(length) => before.start.nanos + length.nanos == now.nanos,
        None => now.nanos < before.start.nanos,
    }
    &&& match site.end_delta {
        Some(delta) => before.start.nanos <= now.nanos && root.nanos + delta.nanos == now.nanos,
        None => now.nanos < before.start.nanos || now.nanos < root.nanos,
    }
}

/// Whether the guard of `source` stands for the event at `i`: that has its id, and stands where it
/// was put or was moved since.
pub open spec fn guards(state: ChartState, source: IndexRef, i: int) -> bool {
    &&& 0 <= i < state.trace.len()
    &&& state.trace[i].uuid == source.uuid
    &&& i == source.index || state.moves.dom().contains(source.uuid)
}

/// The event that a guard stands for is found.
proof fn lemma_guards(state: ChartState, source: IndexRef, i: int)
    requires
        state.sound(),
        guards(state, source, i),
    ensures
        !state.stale(source),
        state.at(source) == i,
{
    let a = state.at(source);
    assert(0 <= a < state.trace.len() && state.trace[a].uuid == source.uuid);
    if a < i {
        assert(state.trace[a].uuid != state.trace[i].uuid);
    } else if i < a {
        assert(state.trace[i].uuid != state.trace[a].uuid);
    }
}

/// Closing the guard of the outermost span completes the trace: it is handed out with all its
/// events, that of the outermost span with the time from its opening until now and the others as
/// they were. What is recorded starts afresh.
pub proof fn law_a_complete_trace_tells_all<C>(
    state: ChartState,
    callback: Option<C>,
    source: IndexRef,
    now: SystemTime,
    minimum: Option<Duration>,
    closing: Closing<C>,
    i: int,
)
    requires
        state.sound(),
        guards(state, source, i),
        state.trace[i].parent is None,
        closes_with(state, callback, source, now, closing),
    ensures
        closing.complete matches Some(complete) && {
            &&& complete.events@.len() == state.trace.len()
            &&& forall|j: int|
                0 <= j < state.trace.len() && j != i ==> #[trigger] complete.events@[j]
                    == state.trace[j]
            &&& tells_the_end(state.trace[i], state.trace[0].start, now, complete.events@[i])
            &&& complete.callback == callback
            &&& complete.violated == state.consistency_violation
        },
        ({
            let next = state.popped(source, now, minimum);
            &&& next.trace.len() == 0
            &&& next.current is None
            &&& next.start_time is None
            &&& next.generation == state.generation + 1
            &&& next.uuid == state.uuid
            &&& next.max_depth == 0
            &&& !next.trimmed
            &&& !next.consistency_violation
        }),
{
    lemma_guards(state, source, i);
    assert(dated(state.trace, i));
}

/// Closing the guard of an inner span that took no less than the minimum, if there is one, keeps
/// its event, with the time from its opening until now, and all others as they were. The span
/// around it is the innermost open one again, and nothing is handed out.
pub proof fn law_an_inner_span_gets_its_time<C>(
    state: ChartState,
    callback: Option<C>,
    source: IndexRef,
    now: SystemTime,
    minimum: Option<Duration>,
    closing: Closing<C>,
    i: int,
)
    requires
        state.sound(),
        guards(state, source, i),
        state.trace[i].parent is Some,
        minimum matches Some(m) ==> now.nanos < state.trace[i].start.nanos || now.nanos
            - state.trace[i].start.nanos >= m.nanos,
        closes_with(state, callback, source, now, closing),
    ensures
        closing.complete is None,
        ({
            let next = state.popped(source, now, minimum);
            &&& next.trace.len() == state.trace.len()
            &&& forall|j: int|
                0 <= j < state.trace.len() && j != i ==> #[trigger] next.trace[j] == state.trace[j]
            &&& tells_the_end(state.trace[i], state.trace[0].start, now, next.trace[i])
            &&& next.current == state.trace[i].parent
            &&& next.start_time == state.start_time
            &&& next.generation == state.generation
            &&& next.uuid == state.uuid
            &&& next.max_depth == state.max_depth
            &&& next.trimmed == state.trimmed
            &&& next.consistency_violation == state.consistency_violation
        }),
{
    lemma_guards(state, source, i);
    assert(dated(state.trace, i));
}

/// Closing the guard of an inner span that took less than the minimum drops its event, whatever
/// lies around or inside it. All others stay as they were but for where they stand and whose
/// children they are; the span around it is the innermost open one again, and nothing is handed
/// out.
pub proof fn law_a_short_span_leaves_nothing<C>(
    state: ChartState,
    callback: Option<C>,
    source: IndexRef,
    now: SystemTime,
    minimum: Duration,
    closing: Closing<C>,
    i: int,
    parent: usize,
)
    requires
        state.sound(),
        guards(state, source, i),
        state.trace[i].parent == Some(parent),
        0 <= now.nanos - state.trace[i].start.nanos < minimum.nanos,
        closes_with(state, callback, source, now, closing),
    ensures
        closing.complete is None,
        ({
            let next = state.popped(source, now, Some(minimum));
            &&& next.trace.len() == state.trace.len() - 1
            &&& forall|j: int|
                0 <= j < next.trace.len() ==> (#[trigger] next.trace[j]).uuid != source.uuid
            &&& forall|j: int|
                #![trigger state.trace[j]]
                0 <= j < state.trace.len() && j != i ==> next.trace[if j == state.trace.len() - 1 {
                    i
                } else {
                    j
                }] == (Callsite {
                    parent: next.trace[if j == state.trace.len() - 1 {
                        i
                    } else {
                        j
                    }].parent,
                    ..state.trace[j]
                })
            &&& forall|j: int|
                #![trigger state.trace[j]]
                0 <= j < state.trace.len() && j != i ==> parent_id(
                    next.trace,
                    if j == state.trace.len() - 1 {
                        i
                    } else {
                        j
                    },
                ) == if state.trace[j].parent == Some(i as usize) {
                    Some(state.trace[parent as int].uuid)
                } else {
                    parent_id(state.trace, j)
                }
            &&& next.current matches Some(c) && next.trace[c as int].uuid
                == state.trace[parent as int].uuid
            &&& next.start_time == state.start_time
            &&& next.generation == state.generation
            &&& next.uuid == state.uuid
            &&& next.trimmed == state.trimmed
            &&& next.consistency_violation == state.consistency_violation
        }),
{
    lemma_guards(state, source, i);
    let next = state.popped(source, now, Some(minimum));
    let last = state.trace.len() - 1;
    assert(placed(state.trace, i));
    assert forall|j: int| 0 <= j < next.trace.len() implies (#[trigger] next.trace[j]).uuid
        != source.uuid by {
        let from = if j == i { last } else { j };
        assert(next.trace[j].uuid == state.trace[from].uuid);
        assert(from != i);
    }
    assert forall|j: int|
        #![trigger state.trace[j]]
        0 <= j < state.trace.len() && j != i implies parent_id(
        next.trace,
        if j == last {
            i
        } else {
            j
        },
    ) == if state.trace[j].parent == Some(i as usize) {
        Some(state.trace[parent as int].uuid)
    } else {
        parent_id(state.trace, j)
    } by {
        let to = if j == last { i } else { j };
        assert(next.trace[to].uuid == state.trace[j].uuid);
        law_closing_keeps_the_links(state, source, now, Some(minimum), j, to);
    }
    let c = next.current->0 as int;
    assert(next.trace[c].uuid == state.trace[parent as int].uuid);
}

/// A guard whose event is nowhere to be found closes nothing and hands nothing out.
pub proof fn law_a_guard_without_event_does_nothing<C>(
    state: ChartState,
    callback: Option<C>,
    source: IndexRef,
    now: SystemTime,
    minimum: Option<Duration>,
    closing: Closing<C>,
)
    requires
        state.sound(),
        forall|i: int| 0 <= i < state.trace.len() ==> (#[trigger] state.trace[i]).uuid != source.uuid,
        closes_with(state, callback, source, now, closing),
    ensures
        state.popped(source, now, minimum) == state,
        closing.complete is None,
{
    if state.moves.dom().contains(source.uuid) {
        assert(state.trace[state.moves[source.uuid] as int].uuid == source.uuid);
    }
}

/// What is logged before a trace is handed out: an error that tells all of a guard that is of
/// another generation, and, if the trace is complete and something was discarded, an error that
/// says so.
pub proof fn law_errors_come_first<C>(
    state: ChartState,
    callback: Option<C>,
    source: IndexRef,
    now: SystemTime,
    closing: Closing<C>,
    index: Seq<char>,
    generation: Seq<char>,
    uuid: Seq<char>,
    current: Seq<char>,
    capacity: Seq<char>,
)
    requires
        closes_with(state, callback, source, now, closing),
        numeral(index, source.index as nat),
        numeral(generation, source.generation as nat),
        numeral(uuid, source.uuid as nat),
        numeral(current, state.generation),
        numeral(capacity, 100_000),
    ensures
        views(closing.log@) == (if source.generation != state.generation {
            seq![
                RecordView {
                    level: Level::Error,
                    message: "Trace desynced - dropped guard IndexRef { index: "@ + index
                        + ", generation: "@ + generation + ", uuid: "@ + uuid
                        + " } in generation "@ + current,
                },
            ]
        } else {
            Seq::empty()
        }) + (if closing.complete is Some && state.trimmed {
            seq![
                RecordView {
                    level: Level::Error,
                    message: "Discarded one or more trace items after exceeding capactity of "@
                        + capacity,
                },
            ]
        } else {
            Seq::empty()
        }),
{
    lemma_numeral(index, source.index as nat);
    lemma_numeral(generation, source.generation as nat);
    lemma_numeral(uuid, source.uuid as nat);
    lemma_numeral(current, state.generation);
    law_discards_are_errors(state.trimmed, 100_000, capacity);
}

/// A number is written in decimal.
proof fn lemma_numeral(digits: Seq<char>, n: nat)
    requires
        numeral(digits, n),
    ensures
        digits == decimal(n),
{
    law_decimal_reads_back(n);
    law_numerals_are_unique(digits, decimal(n), n);
}

/// A complete trace is handed to its own callback, if it has one; else to the handler for all
/// traces, if one was set; and whoever is asked is asked about exactly the events of the trace.
/// What is said then is the answer. If there is neither, the text of the trace is logged, with a
/// word about why; or another word, if it has none.
pub proof fn law_the_trace_is_handed_out<
    C: Fn(&[Callsite]) -> Option<String>,
    F: Fn(&[Callsite]) -> Option<String>,
    W: Fn(&[Callsite]) -> Option<String>,
>(
    callback: Option<C>,
    handler: Option<F>,
    writer: W,
    trace: Seq<Callsite>,
    message: Option<Seq<char>>,
)
    requires
        reports(callback, handler, writer, trace, message),
    ensures
        callback matches Some(c) ==> exists|events: &[Callsite], answer: Option<String>|
            events@ == trace && #[trigger] call_ensures(c, (events,), answer) && (match answer {
                Some(text) => message == Some(text@),
                None => message is None,
            }),
        callback is None && handler is Some ==> exists|events: &[Callsite], answer: Option<String>|
            events@ == trace && #[trigger] call_ensures(handler->0, (events,), answer) && (
            match answer {
                Some(text) => message == Some(text@),
                None => message is None,
            }),
        callback is None && handler is None ==> exists|events: &[Callsite], answer: Option<String>|
            events@ == trace && #[trigger] call_ensures(writer, (events,), answer) && message
                == Some(
                "No trace handler registered - Raw Trace : '"@ + (match answer {
                    Some(text) => text@,
                    None => "Trace Serialization Error"@,
                }) + "'"@,
            ),
{
    if callback is None && handler is None {
        let written = choose|written: Option<Seq<char>>| #[trigger]
            says(writer, trace, written) && message == Some(raw_message(written));
        let (events, answer) = choose|events: &[Callsite], answer: Option<String>|
            events@ == trace && #[trigger] call_ensures(writer, (events,), answer) && text_of(answer)
                == written;
        assert(events@ == trace && call_ensures(writer, (events,), answer));
    } else {
        let f_message = message;
        if let Some(c) = callback {
            let (events, answer) = choose|events: &[Callsite], answer: Option<String>|
                events@ == trace && #[trigger] call_ensures(c, (events,), answer) && text_of(answer)
                    == f_message;
            assert(events@ == trace && call_ensures(c, (events,), answer));
        } else if let Some(h) = handler {
            let (events, answer) = choose|events: &[Callsite], answer: Option<String>|
                events@ == trace && #[trigger] call_ensures(h, (events,), answer) && text_of(answer)
                    == f_message;
            assert(events@ == trace && call_ensures(h, (events,), answer));
        }
    }
}

/// The names that are handed in are those that limit a trace, and a guard stands for the event
/// that it was given.
pub proof fn law_arguments_are_taken_as_they_are(
    list: Option<&Vec<&'static str>>,
    until: Option<Until>,
)
    ensures
        match list {
            Some(l) => names(list) == Some(l@),
            None => names(list) is None,
        },
        match until {
            Some(u) => source(until) == Some(u.source),
            None => source(until) is None,
        },
{
}

/// In every state, `max_depth` is the depth of some event, if there is one, and no event lies
/// deeper; every event but the first lies below another one, which is its parent.
pub proof fn law_the_tree_is_as_deep_as_it_says(state: ChartState, i: int)
    requires
        state.sound(),
        0 <= i < state.trace.len(),
    ensures
        state.trace[i].depth <= state.max_depth,
        exists|d: int| 0 <= d < state.trace.len() && #[trigger] state.trace[d].depth == state.max_depth,
        i == 0 <==> state.trace[i].parent is None,
        state.trace[i].parent matches Some(p) ==> p < state.trace.len() && state.trace[p as int].depth
            < state.trace[i].depth,
{
    lemma_deepest(state.trace);
    assert(placed(state.trace, i));
}

/// When a span was over, as a delta against its root, leads from the root to its end.
pub proof fn law_a_closing_delta_leads_to_the_end(root: SystemTime, site: Callsite)
    requires
        site.end matches Some(length) ==> site.start.nanos + length.nanos <= i128::MAX,
    ensures
        match (site.end, closing_delta(root, site)) {
            (Some(length), Some(delta)) => root.nanos + delta.nanos == site.start.nanos
                + length.nanos,
            (Some(length), None) => site.start.nanos + length.nanos < root.nanos,
            (None, delta) => delta is None,
        },
{
}

/// Whatever can be called on any events can be handed a trace.
pub proof fn law_callable_is_callable<F: Fn(&[Callsite]) -> Option<String>>(f: F)
    ensures
        callable(f) <==> forall|events: &[Callsite]| #[trigger] call_requires(f, (events,)),
{
}

/// A span gets an event unless it would begin a trace and its name is, character by character, none
/// of those that may; or the trace is full and no event lies deeper than it would.
pub proof fn law_spans_get_events(
    state: ChartState,
    entry_points: Option<Seq<&'static str>>,
    name: &'static str,
)
    requires
        state.sound(),
    ensures
        state.trace.len() == 0 ==> (state.admits(entry_points, name) <==> (entry_points is None
            || exists|i: int|
            0 <= i < entry_points->0.len() && (#[trigger] entry_points->0[i])@ == name@)),
        0 < state.trace.len() < 100_000 ==> state.admits(entry_points, name),
        state.trace.len() >= 100_000 ==> (state.admits(entry_points, name) <==> exists|i: int|
            0 <= i < state.trace.len() && (#[trigger] state.trace[i]).depth
                > state.trace[state.current->0 as int].depth + 1),
{
    lemma_deepest(state.trace);
    if state.trace.len() >= 100_000 {
        let d = choose|d: int|
            0 <= d < state.trace.len() && #[trigger] state.trace[d].depth == deepest(state.trace);
        if state.admits(entry_points, name) {
            assert(state.trace[d].depth > state.trace[state.current->0 as int].depth + 1);
        }
    }
}

} // verus!
