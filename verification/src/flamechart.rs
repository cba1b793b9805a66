//! Flame charts: every call is an event of its own, with its own timing.

use std::collections::HashMap;
use vstd::prelude::*;
use vstd::std_specs::iter::IteratorSpec;

use crate::chart_laws::{
    law_closing_keeps_what_holds, law_opening_keeps_what_holds, lemma_ending_keeps_the_tree,
};
use crate::config::{target, SetConfigOutcome, Settings};
use crate::logging::{
    discard_records, log_discard, log_message, report_records, text_of, views, Level, LogRecord,
    RecordView,
};
use crate::soa::{Extractor, SpeedVec};
use crate::text::{decimal, is_listed, listed, push_decimal};
use crate::time::{Duration, SystemTime};

verus! {

broadcast use vstd::std_specs::hash::group_hash_axioms;

/// Maximum number of events captured under a single root.
pub const CAPACITY: usize = 100_000;

/// Generational index.
#[derive(Debug, Clone, Copy, PartialEq, Eq, Structural)]
pub struct IndexRef {
    /// Where the event was put.
    pub index: usize,
    /// The generation in which it was put there.
    pub generation: usize,
    /// Its id.
    pub uuid: usize,
}

/// Description of an event span.
#[derive(Debug, Clone, Copy)]
pub struct Callsite {
    /// The registered name of this span.
    pub name: &'static str,
    /// The filepath and line of this span.
    pub loc: &'static str,
    /// When the span began.
    pub start: SystemTime,
    /// How long it took, once it is over.
    pub end: Option<Duration>,
    /// When the span began, as a delta against the oldest parent in the span tree.
    pub start_delta: SystemTime,
    /// When the span was over, as a delta against the oldest parent in the span tree.
    pub end_delta: Option<Duration>,
    /// The immediate parent of this span in the span array.
    pub parent: Option<usize>,
    /// The id of this span.
    pub uuid: usize,
    /// How many spans enclose this one.
    pub depth: usize,
}

impl Callsite {
    /// The registered name of this span.
    pub fn name(&self) -> (name: &'static str)
        ensures
            name == self.name,
    {
        self.name
    }

    /// The filepath and line of this span.
    pub fn loc(&self) -> (loc: &'static str)
        ensures
            loc == self.loc,
    {
        self.loc
    }

    /// The start time for this span, as a delta against the oldest parent in the span tree: as
    /// long after the Unix epoch as the span began after that parent.
    pub fn start_time(&self) -> (start: &SystemTime)
        ensures
            *start == self.start_delta,
    {
        &self.start_delta
    }

    /// The end time for this span, as a delta against the oldest parent in the span tree; `None`
    /// while it is open, or if the clock was set back meanwhile.
    pub fn end_time(&self) -> (end: Option<&Duration>)
        ensures
            end is Some <==> self.end_delta is Some,
            end matches Some(e) ==> self.end_delta == Some(*e),
    {
        self.end_delta.as_ref()
    }

    /// This event with its times as deltas against `root`, when its oldest parent began.
    pub fn dated_from(self, root: &SystemTime) -> (site: Callsite)
        requires
            self.end matches Some(length) ==> self.start.nanos + length.nanos <= i128::MAX,
        ensures
            site == (Callsite {
                start_delta: SystemTime::delta(*root, self.start),
                end_delta: closing_delta(*root, self),
                ..self
            }),
    {
        let end_delta: Option<Duration> = match self.end {
            Some(length) => {
                let over: i128 = if self.start.nanos >= 0 {
                    self.start.nanos + length.nanos as i128
                } else {
                    // The length alone need not fit.
                    let before: u128 = (-(self.start.nanos + 1)) as u128 + 1;
                    if length.nanos >= before {
                        (length.nanos - before) as i128
                    } else {
                        -((before - length.nanos - 1) as i128) - 1
                    }
                };
                SystemTime::from_nanos(over).duration_since(root)
            },
            None => None,
        };
        Callsite { start_delta: self.start.delta_since(root), end_delta, ..self }
    }

    /// The immediate parent of this span in the span array.
    pub fn parent_site_index(&self) -> (parent: Option<usize>)
        ensures
            parent == self.parent,
    {
        self.parent
    }
}

/// Guard for a Callsite lifetime. The span is over when the guard is closed.
#[derive(Debug)]
pub struct Until {
    /// The event that the guard stands for.
    pub source: IndexRef,
}

/// The depth of an event, kept apart by the array of events.
pub struct DepthOf;

impl Extractor<Callsite, usize> for DepthOf {
    open spec fn accepts(&self, item: &Callsite) -> bool {
        true
    }

    open spec fn extracts(&self, item: &Callsite, field: usize) -> bool {
        field == item.depth
    }

    fn extract(&self, item: &Callsite) -> (field: usize) {
        item.depth
    }
}

/// The events and open spans of one thread. `C` is a callback for a complete trace.
pub struct StencilThreadData<C> {
    /// The pre-sized array for holding current Callsites.
    trace: SpeedVec<Callsite, usize, DepthOf>,
    /// The current active span.
    current: Option<usize>,
    /// The start time of the current tree.
    start_time: Option<SystemTime>,
    /// Logging callback for the current tree.
    callback: Option<C>,
    /// Monotonically growing generation.
    generation: usize,
    /// Monotonically growing callsite id.
    uuid: usize,
    /// Maximum depth from stencil root.
    max_depth: usize,
    /// Data corruption has occurred.
    consistency_violation: bool,
    /// Data was discarded purely for volume.
    trimmed: bool,
    /// Where those events stand, by their ids, that were moved while their spans were open.
    moves: HashMap<usize, usize>,
}

/// A complete trace, to be handed out.
pub struct CompleteTrace<C> {
    /// The events.
    pub events: Vec<Callsite>,
    /// Logging callback for this trace.
    pub callback: Option<C>,
    /// Whether an event could not be placed.
    pub violated: bool,
}

/// What comes of closing a guard: first what is to be logged, and then the complete trace, to be
/// handed out, if there is one.
pub struct Closing<C> {
    /// What is to be logged at once.
    pub log: Vec<LogRecord>,
    /// The complete trace.
    pub complete: Option<CompleteTrace<C>>,
}

/// What a [`StencilThreadData`] holds, but for its callback.
#[verifier::ext_equal]
pub ghost struct ChartState {
    /// The events.
    pub trace: Seq<Callsite>,
    /// The event of the innermost open span.
    pub current: Option<usize>,
    /// When the current tree began.
    pub start_time: Option<SystemTime>,
    /// How many trees were completed.
    pub generation: nat,
    /// How many events were recorded.
    pub uuid: nat,
    /// The depth of the deepest event.
    pub max_depth: nat,
    /// An event could not be placed.
    pub consistency_violation: bool,
    /// A span or an event was discarded purely for volume.
    pub trimmed: bool,
    /// Where those events stand, by their ids, that were moved while their spans were open.
    pub moves: Map<usize, usize>,
}

/// Whether some event of `trace` lies at `depth`.
pub open spec fn has_depth(trace: Seq<Callsite>, depth: nat) -> bool {
    exists|i: int| 0 <= i < trace.len() && #[trigger] trace[i].depth == depth
}

/// Whether `i` is the first event of `trace` that lies at `depth`.
pub open spec fn first_at_depth(trace: Seq<Callsite>, depth: nat, i: int) -> bool {
    &&& 0 <= i < trace.len()
    &&& trace[i].depth == depth
    &&& forall|j: int| 0 <= j < i ==> (#[trigger] trace[j]).depth != depth
}

/// Whether `i` is the only event of `trace` that lies at its depth.
pub open spec fn alone_at_depth(trace: Seq<Callsite>, i: int) -> bool {
    forall|j: int|
        0 <= j < trace.len() && j != i ==> (#[trigger] trace[j]).depth != trace[i].depth
}

/// `trace` without the event at `i`; the last event takes its place.
pub open spec fn without(trace: Seq<Callsite>, i: int) -> Seq<Callsite> {
    trace.update(i, trace.last()).drop_last()
}

/// The depth of the deepest event; zero if there is none.
pub open spec fn deepest(trace: Seq<Callsite>) -> nat
    decreases trace.len(),
{
    if trace.len() == 0 {
        0
    } else if deepest(trace.drop_last()) < trace.last().depth {
        trace.last().depth as nat
    } else {
        deepest(trace.drop_last())
    }
}

/// No event lies deeper than the deepest one, which is one of them.
pub proof fn lemma_deepest(trace: Seq<Callsite>)
    ensures
        forall|i: int| 0 <= i < trace.len() ==> (#[trigger] trace[i]).depth <= deepest(trace),
        trace.len() > 0 ==> has_depth(trace, deepest(trace)),
        trace.len() == 0 ==> deepest(trace) == 0,
    decreases trace.len(),
{
    if trace.len() > 0 {
        let rest = trace.drop_last();
        lemma_deepest(rest);
        assert forall|i: int| 0 <= i < trace.len() implies (#[trigger] trace[i]).depth <= deepest(
            trace,
        ) by {
            if i < rest.len() {
                assert(rest[i] == trace[i]);
            }
        }
        if deepest(rest) < trace.last().depth || rest.len() == 0 {
            assert(trace[trace.len() - 1].depth == deepest(trace));
        } else {
            let j = choose|j: int| 0 <= j < rest.len() && #[trigger] rest[j].depth == deepest(rest);
            assert(trace[j].depth == deepest(trace));
        }
    }
}

/// A depth that some event has, and below which no event lies, is that of the deepest event.
pub proof fn lemma_is_deepest(trace: Seq<Callsite>, depth: nat)
    requires
        has_depth(trace, depth),
        forall|i: int| 0 <= i < trace.len() ==> (#[trigger] trace[i]).depth <= depth,
    ensures
        deepest(trace) == depth,
{
    lemma_deepest(trace);
    let j = choose|j: int| 0 <= j < trace.len() && #[trigger] trace[j].depth == depth;
    assert(trace[j].depth <= deepest(trace));
    let k = choose|k: int| 0 <= k < trace.len() && #[trigger] trace[k].depth == deepest(trace);
    assert(trace[k].depth <= depth);
}

/// If a deepest event that is not the only one gives way to the last event, the rest is as deep.
proof fn lemma_still_deepest(trace: Seq<Callsite>, depth: nat, i: int)
    requires
        0 <= i < trace.len() - 1,
        trace[i].depth == depth,
        !alone_at_depth(trace, i),
        forall|j: int| 0 <= j < trace.len() ==> (#[trigger] trace[j]).depth <= depth,
    ensures
        deepest(without(trace, i)) == depth,
{
    let rest = without(trace, i);
    let last = trace.len() - 1;
    let other = choose|j: int|
        0 <= j < trace.len() && j != i && (#[trigger] trace[j]).depth == trace[i].depth;
    assert(rest[if other == last { i } else { other }].depth == depth);
    assert forall|j: int| 0 <= j < rest.len() implies (#[trigger] rest[j]).depth <= depth by {
        assert(rest[j] == trace[if j == i { last } else { j }]);
    }
    lemma_is_deepest(rest, depth);
}

/// If the only deepest event gives way to the last event, and some other event lies one level
/// above it, that is the depth of the rest.
proof fn lemma_one_less_deep(trace: Seq<Callsite>, depth: nat, i: int, p: int)
    requires
        0 <= i < trace.len() - 1,
        trace[i].depth == depth,
        alone_at_depth(trace, i),
        forall|j: int| 0 <= j < trace.len() ==> (#[trigger] trace[j]).depth <= depth,
        0 <= p < trace.len() - 1,
        without(trace, i)[p].depth == depth - 1,
    ensures
        deepest(without(trace, i)) == depth - 1,
{
    let rest = without(trace, i);
    let last = trace.len() - 1;
    assert forall|j: int| 0 <= j < rest.len() implies (#[trigger] rest[j]).depth <= depth - 1 by {
        let from = if j == i { last } else { j };
        assert(rest[j] == trace[from]);
        assert(trace[from].depth != trace[i].depth);
    }
    assert(has_depth(rest, (depth - 1) as nat));
    lemma_is_deepest(rest, (depth - 1) as nat);
}

/// Without an event that is not one of the deepest, a trace is as deep.
proof fn lemma_as_deep_without(trace: Seq<Callsite>, i: int)
    requires
        0 <= i < trace.len(),
        trace[i].depth != deepest(trace),
    ensures
        deepest(dropped(trace, i)) == deepest(trace),
{
    lemma_deepest(trace);
    let rest = dropped(trace, i);
    let last = trace.len() - 1;
    let d = choose|d: int| 0 <= d < trace.len() && #[trigger] trace[d].depth == deepest(trace);
    assert(rest[if d == last { i } else { d }].depth == deepest(trace));
    assert forall|j: int| 0 <= j < rest.len() implies (#[trigger] rest[j]).depth <= deepest(trace) by {
        assert(rest[j].depth == trace[if j == i { last } else { j }].depth);
    }
    lemma_is_deepest(rest, deepest(trace));
}

/// Where `link` leads, once the event at `i` of `trace` is gone and the last one has taken its
/// place: to the parent of the event if it led to the event.
pub open spec fn relinked(trace: Seq<Callsite>, i: int, link: Option<usize>) -> Option<usize> {
    let heir = if link == Some(i as usize) {
        trace[i].parent
    } else {
        link
    };
    if heir == Some((trace.len() - 1) as usize) {
        Some(i as usize)
    } else {
        heir
    }
}

/// `trace` without the event at `i`. The last event takes its place and stays the parent of its
/// children; the children of the event go to its parent.
pub open spec fn dropped(trace: Seq<Callsite>, i: int) -> Seq<Callsite> {
    without(trace, i).map_values(
        |site: Callsite| Callsite { parent: relinked(trace, i, site.parent), ..site },
    )
}

/// Whether the event at `i` lies below its parent; only the first event has none.
pub open spec fn placed(trace: Seq<Callsite>, i: int) -> bool {
    match trace[i].parent {
        Some(p) => {
            &&& 0 < i
            &&& p < trace.len()
            &&& trace[i].depth > trace[p as int].depth
        },
        None => i == 0 && trace[i].depth == 0,
    }
}

/// When the span of an event was over, as a delta against `root`.
pub open spec fn closing_delta(root: SystemTime, site: Callsite) -> Option<Duration> {
    match site.end {
        Some(length) => if root.nanos <= site.start.nanos + length.nanos {
            Some(Duration { nanos: (site.start.nanos + length.nanos - root.nanos) as u128 })
        } else {
            None
        },
        None => None,
    }
}

/// Whether the times of the event at `i` are given as deltas against the first event, too.
pub open spec fn dated(trace: Seq<Callsite>, i: int) -> bool {
    &&& trace[i].start_delta == SystemTime::delta(trace[0].start, trace[i].start)
    &&& trace[i].end_delta == closing_delta(trace[0].start, trace[i])
    &&& trace[i].end matches Some(length) ==> trace[i].start.nanos + length.nanos <= i128::MAX
}

impl ChartState {
    /// Nothing is recorded.
    pub open spec fn initial() -> ChartState {
        ChartState {
            trace: Seq::empty(),
            current: None,
            start_time: None,
            generation: 0,
            uuid: 0,
            max_depth: 0,
            consistency_violation: false,
            trimmed: false,
            moves: Map::empty(),
        }
    }

    /// The depth of a span that is opened now.
    pub open spec fn next_depth(self) -> nat {
        match self.current {
            Some(p) => if p < self.trace.len() {
                self.trace[p as int].depth as nat + 1
            } else {
                0
            },
            None => 0,
        }
    }

    /// Whether a span of this name may not begin a trace.
    pub open spec fn refuses(self, entry_points: Option<Seq<&'static str>>, name: &str) -> bool {
        &&& self.trace.len() == 0
        &&& entry_points matches Some(names)
        &&& !listed(names, name@)
    }

    /// Whether the innermost open span has no event.
    pub open spec fn orphaned(self) -> bool {
        self.current matches Some(p) && p >= self.trace.len()
    }

    /// Whether a span that is opened now would be the first to give way.
    pub open spec fn crowded_out(self) -> bool {
        self.trace.len() >= CAPACITY && self.next_depth() >= self.max_depth
    }

    /// Whether a span of this name that is opened now gets an event.
    pub open spec fn admits(self, entry_points: Option<Seq<&'static str>>, name: &str) -> bool {
        !self.refuses(entry_points, name) && !self.orphaned() && !self.crowded_out()
    }

    /// The current tree has begun, now if not before.
    pub open spec fn started(self, now: SystemTime) -> ChartState {
        ChartState { start_time: Some(self.origin(now)), ..self }
    }

    /// When the current tree began, which is now if not before.
    pub open spec fn origin(self, now: SystemTime) -> SystemTime {
        match self.start_time {
            Some(time) => time,
            None => now,
        }
    }

    /// The event of a span that is opened now.
    pub open spec fn event(self, name: &'static str, loc: &'static str, now: SystemTime) -> Callsite {
        Callsite {
            name,
            loc,
            start: now,
            end: None,
            start_delta: SystemTime::delta(self.origin(now), now),
            end_delta: None,
            parent: self.current,
            uuid: self.uuid as usize,
            depth: self.next_depth() as usize,
        }
    }

    /// The event of a span that is opened now is put at the end.
    pub open spec fn appended(self, name: &'static str, loc: &'static str, now: SystemTime) -> ChartState {
        ChartState {
            trace: self.trace.push(self.event(name, loc, now)),
            uuid: self.uuid + 1,
            max_depth: if self.max_depth < self.next_depth() {
                self.next_depth()
            } else {
                self.max_depth
            },
            ..self.started(now)
        }
    }

    /// The span of the event at `i` is the innermost open one.
    pub open spec fn entered(self, i: int) -> ChartState {
        ChartState { current: Some(i as usize), ..self }
    }

    /// The event at `i`, one of the deepest, gives way to the last event.
    pub open spec fn trimmed_at(self, i: int) -> ChartState {
        ChartState {
            trace: without(self.trace, i),
            max_depth: deepest(without(self.trace, i)),
            trimmed: true,
            moves: self.moves.remove(self.trace[i].uuid),
            ..self
        }
    }

    /// There is no deepest event to give way.
    pub open spec fn violated(self) -> ChartState {
        ChartState { trimmed: true, consistency_violation: true, ..self }
    }

    /// Whether the event that `source` stands for is where it was put.
    pub open spec fn in_place(self, source: IndexRef) -> bool {
        source.index < self.trace.len() && self.trace[source.index as int].uuid == source.uuid
    }

    /// Whether the event that `source` stands for is no longer there.
    pub open spec fn stale(self, source: IndexRef) -> bool {
        !self.in_place(source) && !self.moves.dom().contains(source.uuid)
    }

    /// Where the event stands that `source` stands for: where it was put, or where it was moved.
    pub open spec fn at(self, source: IndexRef) -> int {
        if self.in_place(source) {
            source.index as int
        } else {
            self.moves[source.uuid] as int
        }
    }

    /// The time that the span of the event at `i` took, if it ends now.
    pub open spec fn length(self, i: int, now: SystemTime) -> Option<Duration> {
        SystemTime::between(self.trace[i].start, now)
    }

    /// The time from the beginning of the tree until now, if the span of the event at `i` ends
    /// now.
    pub open spec fn closing_time(self, i: int, now: SystemTime) -> Option<Duration> {
        match self.length(i, now) {
            Some(_) => SystemTime::between(self.origin(now), now),
            None => None,
        }
    }

    /// Whether the span of the event at `i`, if it ends now, is too short to be kept.
    pub open spec fn too_short(self, i: int, now: SystemTime, minimum: Option<Duration>) -> bool {
        &&& self.length(i, now) matches Some(length)
        &&& minimum matches Some(m)
        &&& length.nanos < m.nanos
    }

    /// The span of the event at `i` ends now.
    pub open spec fn ended(self, i: int, now: SystemTime) -> ChartState {
        ChartState {
            trace: self.trace.update(
                i,
                Callsite {
                    end: self.length(i, now),
                    end_delta: self.closing_time(i, now),
                    ..self.trace[i]
                },
            ),
            ..self
        }
    }

    /// Where moved events stand, once the event at `i` is gone and the last one has taken its
    /// place. The guard of a span that is over is not needed any more.
    pub open spec fn moves_without(self, i: int) -> Map<usize, usize> {
        let rest = self.moves.remove(self.trace[i].uuid);
        if i == self.trace.len() - 1 {
            rest
        } else if self.trace.last().end is None {
            rest.insert(self.trace.last().uuid, i as usize)
        } else {
            rest.remove(self.trace.last().uuid)
        }
    }

    /// The event at `i` is dropped. The last event takes its place.
    pub open spec fn without_event(self, i: int) -> ChartState {
        ChartState {
            trace: dropped(self.trace, i),
            current: relinked(self.trace, i, self.current),
            max_depth: deepest(dropped(self.trace, i)),
            moves: self.moves_without(i),
            ..self
        }
    }

    /// The span of the event at `i`, an inner one, ends now: its parent is the innermost open
    /// span again, and the event is dropped if the span was too short.
    pub open spec fn left(self, i: int, now: SystemTime, minimum: Option<Duration>) -> ChartState {
        let back = ChartState { current: self.trace[i].parent, ..self.ended(i, now) };
        if self.too_short(i, now, minimum) {
            back.without_event(i)
        } else {
            back
        }
    }

    /// The trace is complete, and the next one can begin.
    pub open spec fn unwound(self) -> ChartState {
        ChartState {
            trace: Seq::empty(),
            current: None,
            start_time: None,
            generation: self.generation + 1,
            max_depth: 0,
            consistency_violation: false,
            trimmed: false,
            moves: Map::empty(),
            ..self
        }
    }

    /// Closing the guard of `source` leads to this state.
    pub open spec fn popped(self, source: IndexRef, now: SystemTime, minimum: Option<Duration>) -> ChartState {
        let i = self.at(source);
        if self.stale(source) {
            self
        } else if self.trace[i].parent is Some {
            self.left(i, now, minimum)
        } else {
            self.ended(i, now).unwound()
        }
    }

    /// Whether closing the guard of `source` completes the trace.
    pub open spec fn completes(self, source: IndexRef) -> bool {
        !self.stale(source) && self.trace[self.at(source)].parent is None
    }

    /// Whether more events were recorded than lie above one another.
    pub open spec fn bounded(self) -> bool {
        self.trace.len() > 0 ==> self.max_depth < self.uuid
    }

    /// Whether the events form one tree, and the innermost open span is one of them.
    pub open spec fn linked(self) -> bool {
        &&& forall|i: int| 0 <= i < self.trace.len() ==> #[trigger] placed(self.trace, i)
        &&& self.current matches Some(p) ==> p < self.trace.len()
        &&& (self.current is None) == (self.trace.len() == 0)
    }

    /// Whether `max_depth` is the depth of the deepest event; zero if there is none.
    pub open spec fn exact(self) -> bool {
        self.max_depth == deepest(self.trace)
    }

    /// Whether `moves` tells of events that are there, and where they stand.
    pub open spec fn located(self) -> bool {
        forall|id: usize| #[trigger]
            self.moves.dom().contains(id) ==> self.moves[id] < self.trace.len()
                && self.trace[self.moves[id] as int].uuid == id
    }

    /// Whether every event has an id of its own, and the next id is not taken.
    pub open spec fn identified(self) -> bool {
        &&& forall|i: int|
            0 <= i < self.trace.len() ==> (#[trigger] self.trace[i]).uuid < self.uuid
        &&& forall|i: int, j: int|
            0 <= i < j < self.trace.len() ==> (#[trigger] self.trace[i]).uuid != (
            #[trigger] self.trace[j]).uuid
    }

    /// Whether the tree began with the first event, and the times of all events are given as
    /// deltas against it, too.
    pub open spec fn clocked(self) -> bool {
        &&& self.start_time == if self.trace.len() == 0 {
            None
        } else {
            Some(self.trace[0].start)
        }
        &&& forall|i: int| 0 <= i < self.trace.len() ==> #[trigger] dated(self.trace, i)
    }

    /// What holds of every state: there are at most [`CAPACITY`] events, they form one tree, each
    /// has an id of its own, `max_depth` is the depth of the deepest one, their times are given
    /// as deltas against the first one, and no event could not be placed.
    pub open spec fn sound(self) -> bool {
        &&& self.trace.len() <= CAPACITY
        &&& self.bounded()
        &&& self.linked()
        &&& self.exact()
        &&& self.identified()
        &&& self.located()
        &&& self.clocked()
        &&& !self.consistency_violation
    }

    /// Whether opening a span leads from this state to `next`, with `source` for its event.
    pub open spec fn pushes(
        self,
        entry_points: Option<Seq<&'static str>>,
        name: &'static str,
        loc: &'static str,
        now: SystemTime,
        next: ChartState,
        source: Option<IndexRef>,
    ) -> bool {
        let grown = self.appended(name, loc, now);
        if self.refuses(entry_points, name) {
            next == self && source is None
        } else if self.orphaned() {
            next == self.started(now) && source is None
        } else if self.crowded_out() {
            next == (ChartState { trimmed: true, ..self.started(now) }) && source is None
        } else if self.trace.len() >= CAPACITY && !has_depth(grown.trace, grown.max_depth) {
            next == grown.violated() && source is None
        } else {
            &&& source matches Some(s)
            &&& s.generation == self.generation
            &&& s.uuid == self.uuid
            &&& if self.trace.len() < CAPACITY {
                &&& s.index == self.trace.len()
                &&& next == grown.entered(s.index as int)
            } else {
                &&& first_at_depth(grown.trace, grown.max_depth, s.index as int)
                &&& next == grown.trimmed_at(s.index as int).entered(s.index as int)
            }
        }
    }
}

/// Whether `f` can be called on any events.
pub open spec fn callable<F: Fn(&[Callsite]) -> Option<String>>(f: F) -> bool {
    forall|events: &[Callsite]| #[trigger] call_requires(f, (events,))
}

/// Whether `message` is what `f` can have to say about `trace`.
pub open spec fn says<F: Fn(&[Callsite]) -> Option<String>>(
    f: F,
    trace: Seq<Callsite>,
    message: Option<Seq<char>>,
) -> bool {
    exists|events: &[Callsite], answer: Option<String>|
        events@ == trace && #[trigger] call_ensures(f, (events,), answer) && text_of(answer)
            == message
}

/// The message about a trace that nothing was registered for: the trace as such, where `written`
/// is its text, if it has one.
pub open spec fn raw_message(written: Option<Seq<char>>) -> Seq<char> {
    "No trace handler registered - Raw Trace : '"@ + match written {
        Some(text) => text,
        None => "Trace Serialization Error"@,
    } + "'"@
}

/// Whether `message` is what there can be to say about `trace`: by the callback for this trace,
/// else by the handler for all traces, else the trace as such.
pub open spec fn reports<
    C: Fn(&[Callsite]) -> Option<String>,
    F: Fn(&[Callsite]) -> Option<String>,
    W: Fn(&[Callsite]) -> Option<String>,
>(
    callback: Option<C>,
    handler: Option<F>,
    writer: W,
    trace: Seq<Callsite>,
    message: Option<Seq<char>>,
) -> bool {
    match callback {
        Some(c) => says(c, trace, message),
        None => match handler {
            Some(h) => says(h, trace, message),
            None => exists|written: Option<Seq<char>>| #[trigger]
                says(writer, trace, written) && message == Some(raw_message(written)),
        },
    }
}

/// The record that a guard of another generation was closed.
pub open spec fn desynced_record(source: IndexRef, generation: nat) -> RecordView {
    RecordView {
        level: Level::Error,
        message: "Trace desynced - dropped guard IndexRef { index: "@ + decimal(source.index as nat)
            + ", generation: "@ + decimal(source.generation as nat) + ", uuid: "@ + decimal(
            source.uuid as nat,
        ) + " } in generation "@ + decimal(generation),
    }
}

/// The records about a guard that is closed in `state`: one if it is of another generation.
pub open spec fn desynced_records(state: ChartState, source: IndexRef) -> Seq<RecordView> {
    if state.generation != source.generation {
        seq![desynced_record(source, state.generation)]
    } else {
        Seq::empty()
    }
}

/// The records about a guard that is closed in `state`, before the trace is handed out, if it is
/// complete: that the guard is of another generation, and that something was discarded.
pub open spec fn closing_records(state: ChartState, source: IndexRef) -> Seq<RecordView> {
    desynced_records(state, source) + if state.completes(source) {
        discard_records(state.trimmed, CAPACITY as nat)
    } else {
        Seq::empty()
    }
}

/// Whether `closing` is what comes of closing the guard of `source` in `state`: what is to be
/// logged first, and the trace with its callback, if it is complete.
pub open spec fn closes_with<C>(
    state: ChartState,
    callback: Option<C>,
    source: IndexRef,
    now: SystemTime,
    closing: Closing<C>,
) -> bool {
    &&& views(closing.log@) == closing_records(state, source)
    &&& match closing.complete {
        Some(complete) => {
            &&& state.completes(source)
            &&& complete.events@ == state.ended(state.at(source), now).trace
            &&& complete.callback == callback
            &&& complete.violated == state.consistency_violation
        },
        None => !state.completes(source),
    }
}

/// The names that the outermost span may have.
pub open spec fn names(entry_points: Option<&Vec<&'static str>>) -> Option<Seq<&'static str>> {
    match entry_points {
        Some(list) => Some(list@),
        None => None,
    }
}

/// The event that a guard stands for.
pub open spec fn source(until: Option<Until>) -> Option<IndexRef> {
    match until {
        Some(u) => Some(u.source),
        None => None,
    }
}

/// Where `link` leads, once the event at `i`, which was `gone`, is gone and the one at `last` has
/// taken its place.
fn relink(link: Option<usize>, gone: &Callsite, i: usize, last: usize) -> (heir: Option<usize>)
    ensures
        forall|trace: Seq<Callsite>|
            0 <= i < trace.len() && trace[i as int] == *gone && last == trace.len() - 1 ==> heir
                == #[trigger] relinked(trace, i as int, link),
{
    let heir: Option<usize> = match link {
        Some(p) => if p == i {
            gone.parent
        } else {
            link
        },
        None => None,
    };
    match heir {
        Some(p) => if p == last {
            Some(i)
        } else {
            heir
        },
        None => None,
    }
}

impl<C> StencilThreadData<C> {
    /// What is recorded.
    pub closed spec fn state(&self) -> ChartState {
        ChartState {
            trace: self.trace@,
            current: self.current,
            start_time: self.start_time,
            generation: self.generation as nat,
            uuid: self.uuid as nat,
            max_depth: self.max_depth as nat,
            consistency_violation: self.consistency_violation,
            trimmed: self.trimmed,
            moves: self.moves@,
        }
    }

    /// The callback for the current tree.
    pub closed spec fn callback(&self) -> Option<C> {
        self.callback
    }

    /// The array of events is in order, and what is recorded is sound.
    pub closed spec fn wf(&self) -> bool {
        &&& self.trace.wf()
        &&& self.state().sound()
    }

    /// What is recorded is sound; in particular, there are at most [`CAPACITY`] events.
    pub proof fn lemma_wf(&self)
        requires
            self.wf(),
        ensures
            self.state().sound(),
    {
    }

    /// Nothing is recorded.
    pub fn new() -> (data: Self)
        ensures
            data.wf(),
            data.callback() is None,
            data.state() == ChartState::initial(),
    {
        StencilThreadData {
            trace: SpeedVec::with_capacity(CAPACITY, DepthOf),
            current: None,
            start_time: None,
            callback: None,
            generation: 0,
            uuid: 0,
            max_depth: 0,
            consistency_violation: false,
            trimmed: false,
            moves: HashMap::new(),
        }
    }

    /// How many trees were completed.
    pub fn generation(&self) -> (generation: usize)
        ensures
            generation == self.state().generation,
    {
        self.generation
    }

    /// How many events were recorded, which is the id of the next one.
    pub fn uuid(&self) -> (uuid: usize)
        ensures
            uuid == self.state().uuid,
    {
        self.uuid
    }

    /// The first event that lies at `max_depth`, and whether no other does.
    fn find_deepest(&self) -> (deepest: Option<(usize, bool)>)
        requires
            self.trace.wf(),
        ensures
            match deepest {
                Some((i, alone)) => {
                    &&& first_at_depth(self.trace@, self.max_depth as nat, i as int)
                    &&& alone == alone_at_depth(self.trace@, i as int)
                },
                None => !has_depth(self.trace@, self.max_depth as nat),
            },
    {
        let ghost depths = self.trace.fields();
        let ghost trace = self.trace@;
        proof {
            assert forall|i: int| 0 <= i < trace.len() implies depths[i] == (#[trigger] trace[i]).depth by {
                assert(self.trace.extractor().extracts(&trace[i], depths[i]));
            }
        }
        let len = self.trace.len();
        let iter = self.trace.iter_fast();
        let mut at: usize = 0;
        let mut first: Option<usize> = None;
        let level: usize = self.max_depth;
        for depth in it: iter
            invariant
                at == it.index(),
                it.seq() == depths.as_ref(),
                depths.len() == trace.len(),
                trace.len() == len,
                forall|i: int| 0 <= i < trace.len() ==> depths[i] == (#[trigger] trace[i]).depth,
                trace == self.trace@,
                level == self.max_depth,
                match first {
                    Some(f) => first_at_depth(trace, level as nat, f as int) && f < at && forall|j: int|
                        0 <= j < at && j != f ==> (#[trigger] trace[j]).depth != level,
                    None => forall|j: int| 0 <= j < at ==> (#[trigger] trace[j]).depth != level,
                },
        {
            if *depth == level {
                match first {
                    Some(f) => {
                        assert(trace[at as int].depth == level);
                        return Some((f, false));
                    },
                    None => {
                        first = Some(at);
                    },
                }
            }
            at += 1;
        }
        match first {
            Some(f) => Some((f, true)),
            None => None,
        }
    }

    /// The depth of the deepest event.
    fn measure_depth(&self) -> (depth: usize)
        requires
            self.trace.wf(),
        ensures
            depth == deepest(self.trace@),
    {
        let ghost depths = self.trace.fields();
        let ghost trace = self.trace@;
        proof {
            assert forall|i: int| 0 <= i < trace.len() implies depths[i] == (#[trigger] trace[i]).depth by {
                assert(self.trace.extractor().extracts(&trace[i], depths[i]));
            }
        }
        let iter = self.trace.iter_fast();
        let mut at: usize = 0;
        let len = self.trace.len();
        let mut most: usize = 0;
        for depth in it: iter
            invariant
                at == it.index(),
                it.seq() == depths.as_ref(),
                depths.len() == trace.len(),
                trace.len() == len,
                forall|i: int| 0 <= i < trace.len() ==> depths[i] == (#[trigger] trace[i]).depth,
                most == deepest(trace.take(at as int)),
        {
            proof {
                let taken = trace.take(at + 1);
                assert(taken.drop_last() =~= trace.take(at as int));
                assert(taken.last() == trace[at as int]);
            }
            if most < *depth {
                most = *depth;
            }
            at += 1;
        }
        assert(trace.take(len as int) =~= trace);
        most
    }

    /// Drops the event at `i`. The last event takes its place.
    fn drop_event(&mut self, i: usize)
        requires
            old(self).trace.wf(),
            i < old(self).trace@.len(),
            old(self).state().exact(),
            old(self).state().linked(),
        ensures
            final(self).trace.wf(),
            final(self).callback() == old(self).callback(),
            final(self).state() == old(self).state().without_event(i as int),
    {
        let last: usize = self.trace.len() - 1;
        let ghost before = self.trace@;
        let ghost all = dropped(before, i as int);
        let gone: Callsite = self.trace.inner()[i];
        let tail: Callsite = self.trace.inner()[last];
        self.trace.swap_remove(i);
        let ghost rest = self.trace@;
        if i != last || gone.depth != self.max_depth {
            // Some event may have this one, or the one that was moved, for its parent.
            let mut k: usize = 0;
            while k < self.trace.len()
                invariant
                    k <= self.trace@.len(),
                    self.trace.wf(),
                    self.trace@.len() == rest.len(),
                    rest.len() == all.len(),
                    before == old(self).trace@,
                    i < before.len(),
                    gone == before[i as int],
                    rest == without(before, i as int),
                    all == dropped(before, i as int),
                    last == before.len() - 1,
                    forall|j: int| 0 <= j < k ==> (#[trigger] self.trace@[j]) == all[j],
                    forall|j: int| k <= j < rest.len() ==> (#[trigger] self.trace@[j]) == rest[j],
                    *self == (StencilThreadData { trace: self.trace, ..*old(self) }),
                decreases rest.len() - k,
            {
                let site: Callsite = self.trace.inner()[k];
                let parent = relink(site.parent, &gone, i, last);
                {
                    let mut guard = self.trace.get_mut(k);
                    guard.set(Callsite { parent, ..site });
                }
                k += 1;
            }
        } else {
            proof {
                lemma_deepest(before);
                assert forall|j: int| 0 <= j < rest.len() implies #[trigger] rest[j] == all[j] by {
                    assert(rest[j] == before[j]);
                    assert(placed(before, j));
                    assert(placed(before, i as int));
                    if before[j].parent == Some(i) {
                        assert(before[j].depth <= deepest(before));
                    }
                }
            }
        }
        assert(self.trace@ =~= all);
        self.current = relink(self.current, &gone, i, last);
        self.moves.remove(&gone.uuid);
        if i != last {
            if tail.end.is_none() {
                self.moves.insert(tail.uuid, i);
            } else {
                self.moves.remove(&tail.uuid);
            }
        }
        if gone.depth == self.max_depth {
            self.max_depth = self.measure_depth();
        } else {
            proof {
                lemma_as_deep_without(before, i as int);
            }
        }
        assert(self.state() =~= old(self).state().without_event(i as int));
    }

    /// Opens a span. `entry_points`, if given, are the names that the outermost span of a trace
    /// may have.
    pub fn push(
        &mut self,
        entry_points: Option<&Vec<&'static str>>,
        name: &'static str,
        loc: &'static str,
        now: SystemTime,
    ) -> (until: Option<Until>)
        requires
            old(self).wf(),
            old(self).state().admits(names(entry_points), name) ==> old(self).state().uuid
                < usize::MAX,
        ensures
            final(self).wf(),
            final(self).state().sound(),
            final(self).callback() == old(self).callback(),
            old(self).state().pushes(
                names(entry_points),
                name,
                loc,
                now,
                final(self).state(),
                source(until),
            ),
    {
        if self.trace.len() == 0 {
            if let Some(allowed) = entry_points {
                if !is_listed(allowed, name) {
                    return None;
                }
            }
        }
        let parent = self.current;
        let generation = self.generation;
        let root: SystemTime = match self.start_time {
            Some(time) => time,
            None => now,
        };
        self.start_time = Some(root);
        proof {
            lemma_deepest(self.trace@);
        }
        let depth: usize = match parent {
            Some(p) => match self.trace.get(p) {
                Some(item) => item.depth + 1,
                None => 0,
            },
            None => 0,
        };
        if parent.is_some() && depth == 0 {
            // The parent of this entry was trimmed, so this entry is trimmed.
            return None;
        }
        if self.trace.len() >= CAPACITY && depth >= self.max_depth {
            // This entry is going to be trimmed later, but we can short-circuit and remove it now.
            self.trimmed = true;
            proof {
                law_opening_keeps_what_holds(
                    old(self).state(),
                    names(entry_points),
                    name,
                    loc,
                    now,
                    self.state(),
                    None,
                );
            }
            return None;
        }
        let uuid = self.uuid;
        self.uuid += 1;
        self.trace.push(
            Callsite {
                name,
                loc,
                start: now,
                end: None,
                start_delta: now.delta_since(&root),
                end_delta: None,
                parent,
                uuid,
                depth,
            },
        );
        if self.max_depth < depth {
            self.max_depth = depth;
        }
        let index: usize = if self.trace.len() <= CAPACITY {
            self.trace.len() - 1
        } else {
            self.trimmed = true;
            match self.find_deepest() {
                Some((first, alone)) => {
                    let gone: Callsite = self.trace.inner()[first];
                    self.moves.remove(&gone.uuid);
                    let ghost grown = self.trace@;
                    self.trace.swap_remove(first);
                    if alone {
                        let above: Option<usize> = match gone.parent {
                            Some(p) => match self.trace.get(p) {
                                Some(item) => Some(item.depth),
                                None => None,
                            },
                            None => None,
                        };
                        if above == Some(self.max_depth - 1) {
                            proof {
                                lemma_one_less_deep(
                                    grown,
                                    self.max_depth as nat,
                                    first as int,
                                    gone.parent->0 as int,
                                );
                            }
                            self.max_depth -= 1;
                        } else {
                            self.max_depth = self.measure_depth();
                        }
                    } else {
                        proof {
                            lemma_still_deepest(grown, self.max_depth as nat, first as int);
                        }
                    }
                    first
                },
                None => {
                    self.consistency_violation = true;
                    proof {
                        law_opening_keeps_what_holds(
                            old(self).state(),
                            names(entry_points),
                            name,
                            loc,
                            now,
                            self.state(),
                            None,
                        );
                    }
                    return None;
                },
            }
        };
        self.current = Some(index);
        let source = IndexRef { index, generation, uuid };
        proof {
            law_opening_keeps_what_holds(
                old(self).state(),
                names(entry_points),
                name,
                loc,
                now,
                self.state(),
                Some(source),
            );
        }
        Some(Until { source })
    }
}

/// The record that a guard of another generation was closed.
fn log_desynced(source: &IndexRef, generation: usize) -> (record: LogRecord)
    ensures
        record@ == desynced_record(*source, generation as nat),
{
    let mut message: String = String::new();
    message.append("Trace desynced - dropped guard IndexRef { index: ");
    push_decimal(&mut message, source.index as u128);
    message.append(", generation: ");
    push_decimal(&mut message, source.generation as u128);
    message.append(", uuid: ");
    push_decimal(&mut message, source.uuid as u128);
    message.append(" } in generation ");
    push_decimal(&mut message, generation as u128);
    LogRecord { level: Level::Error, message }
}

impl<C> StencilThreadData<C> {
    /// Takes the complete trace out and starts afresh.
    fn unwind(&mut self) -> (complete: CompleteTrace<C>)
        requires
            old(self).trace.wf(),
            old(self).state().generation < usize::MAX,
        ensures
            final(self).trace.wf(),
            final(self).state() == old(self).state().unwound(),
            final(self).callback() is None,
            complete.events@ == old(self).state().trace,
            complete.callback == old(self).callback(),
            complete.violated == old(self).state().consistency_violation,
    {
        let ghost trace = self.trace@;
        let mut events: Vec<Callsite> = Vec::with_capacity(self.trace.len());
        let mut k: usize = 0;
        while k < self.trace.len()
            invariant
                *self == *old(self),
                self.trace.wf(),
                trace == self.trace@,
                k <= trace.len(),
                events@ == trace.take(k as int),
            decreases trace.len() - k,
        {
            events.push(self.trace.inner()[k]);
            k += 1;
            assert(events@ =~= trace.take(k as int));
        }
        assert(events@ =~= trace);
        let complete = CompleteTrace {
            events,
            callback: self.callback.take(),
            violated: self.consistency_violation,
        };
        self.trace.clear();
        self.start_time = None;
        self.current = None;
        self.max_depth = 0;
        self.consistency_violation = false;
        self.trimmed = false;
        self.moves.clear();
        self.generation += 1;
        assert(self.state() =~= old(self).state().unwound());
        complete
    }

    /// Where the event stands that `source` stands for, if it is there.
    fn locate(&self, source: &IndexRef) -> (index: Option<usize>)
        requires
            self.wf(),
        ensures
            match index {
                Some(i) => !self.state().stale(*source) && i == self.state().at(*source) && i
                    < self.trace@.len(),
                None => self.state().stale(*source),
            },
    {
        if let Some(found) = self.trace.get(source.index) {
            if found.uuid == source.uuid {
                return Some(source.index);
            }
        }
        match self.moves.get(&source.uuid) {
            Some(i) => {
                assert(self.state().moves.dom().contains(source.uuid));
                Some(*i)
            },
            None => None,
        }
    }

    /// Ends the span that `source` stands for, if its event is still there. An inner span that
    /// took less than `minimum` is dropped; what was recorded inside it goes to its parent.
    ///
    /// What is to be logged comes back, and when the span is the outermost one, the complete
    /// trace: the records come first, and then the trace is to be handed out.
    pub fn pop(&mut self, source: &IndexRef, now: SystemTime, minimum: Option<&Duration>) -> (closing:
        Closing<C>)
        requires
            old(self).wf(),
            old(self).state().completes(*source) ==> old(self).state().generation < usize::MAX,
        ensures
            final(self).wf(),
            final(self).state().sound(),
            final(self).state() == old(self).state().popped(*source, now, target(minimum)),
            final(self).callback() == if old(self).state().completes(*source) {
                None
            } else {
                old(self).callback()
            },
            closes_with(old(self).state(), old(self).callback(), *source, now, closing),
    {
        let mut log: Vec<LogRecord> = Vec::new();
        if self.generation != source.generation {
            log.push(log_desynced(source, self.generation));
        }
        let ghost desynced = log@;
        assert(views(desynced) =~= desynced_records(old(self).state(), *source));
        let i: usize = match self.locate(source) {
            Some(at) => at,
            None => {
                // The index ref is invalid.
                return Closing { log, complete: None };
            },
        };
        let item: Callsite = self.trace.inner()[i];
        let root: SystemTime = match self.start_time {
            Some(time) => time,
            None => now,
        };
        let end = now.duration_since(&item.start);
        let end_delta: Option<Duration> = match end {
            Some(_) => now.duration_since(&root),
            None => None,
        };
        {
            let mut guard = self.trace.get_mut(i);
            guard.set(Callsite { end, end_delta, ..item });
        }
        assert(self.state() =~= old(self).state().ended(i as int, now));
        proof {
            law_closing_keeps_what_holds(old(self).state(), *source, now, target(minimum));
        }
        if item.parent.is_some() {
            self.current = item.parent;
            let too_short: bool = match (end, minimum) {
                (Some(e), Some(min)) => e.nanos < min.nanos,
                _ => false,
            };
            if too_short {
                proof {
                    lemma_ending_keeps_the_tree(old(self).state(), i as int, now);
                }
                self.drop_event(i);
            }
            Closing { log, complete: None }
        } else {
            let mut discard = log_discard(self.trimmed, CAPACITY);
            let ghost discarded = discard@;
            log.append(&mut discard);
            assert(views(log@) =~= views(desynced) + views(discarded));
            let complete = self.unwind();
            Closing { log, complete: Some(complete) }
        }
    }
}

impl<C: Fn(&[Callsite]) -> Option<String>> CompleteTrace<C> {
    /// Hands the trace out. Returns what is to be logged about it.
    ///
    /// The trace goes to the callback for this trace, else to `handler`; if there is neither, the
    /// text that `writer` makes of it is logged.
    pub fn report<F: Fn(&[Callsite]) -> Option<String>, W: Fn(&[Callsite]) -> Option<String>>(
        self,
        handler: Option<&F>,
        writer: &W,
    ) -> (log: Vec<LogRecord>)
        requires
            self.callback matches Some(c) ==> callable(c),
            handler matches Some(h) ==> callable(*h),
            callable(*writer),
        ensures
            exists|message: Option<Seq<char>>| #[trigger]
                reports(self.callback, target(handler), *writer, self.events@, message) && views(
                    log@,
                ) == report_records(self.violated, message),
    {
        let ghost callback = self.callback;
        let events = self.events;
        let item: Option<String> = if let Some(f) = self.callback {
            let answer = f(events.as_slice());
            assert(says(f, events@, text_of(answer)));
            answer
        } else if let Some(f) = handler {
            // Use the registered handler if it is available.
            let answer = f(events.as_slice());
            assert(says(*f, events@, text_of(answer)));
            answer
        } else {
            let answer = writer(events.as_slice());
            assert(says(*writer, events@, text_of(answer)));
            let mut text: String = String::new();
            text.append("No trace handler registered - Raw Trace : '");
            match &answer {
                Some(written) => {
                    text.append(written.as_str());
                },
                None => {
                    text.append("Trace Serialization Error");
                },
            }
            text.append("'");
            assert(text@ == raw_message(text_of(answer)));
            Some(text)
        };
        assert(reports(callback, target(handler), *writer, events@, text_of(item)));
        log_message(self.violated, item)
    }
}

impl<C> StencilThreadData<C> {
    /// Registers a callback for the current tree, if there isn't one yet.
    pub fn register(&mut self, callback: C)
        requires
            old(self).wf(),
        ensures
            final(self).wf(),
            final(self).state() == old(self).state(),
            final(self).callback() == match old(self).callback() {
                Some(c) => Some(c),
                None => Some(callback),
            },
    {
        if self.callback.is_none() {
            self.callback = Some(callback);
        }
    }
}

/// Create a new span named `name` and track it until the returned guard is closed.
pub fn outline<G, H, C>(
    settings: &Settings<G, H>,
    data: &mut StencilThreadData<C>,
    name: &'static str,
    loc: &'static str,
    now: SystemTime,
) -> (until: Option<Until>)
    requires
        settings.wf(),
        old(data).wf(),
        old(data).state().admits(settings.entry_points(), name) ==> old(data).state().uuid
            < usize::MAX,
    ensures
        final(data).wf(),
        final(data).state().sound(),
        final(data).callback() == old(data).callback(),
        old(data).state().pushes(
            settings.entry_points(),
            name,
            loc,
            now,
            final(data).state(),
            source(until),
        ),
{
    data.push(settings.allowed_entry_points.get(), name, loc, now)
}

/// Create a new span named `name` and track it until the returned guard is closed. If there
/// isn't a callback yet to control logging the span, registers one.
pub fn outline_with<G, H, C>(
    settings: &Settings<G, H>,
    data: &mut StencilThreadData<C>,
    name: &'static str,
    loc: &'static str,
    now: SystemTime,
    callback: C,
) -> (until: Option<Until>)
    requires
        settings.wf(),
        old(data).wf(),
        old(data).state().admits(settings.entry_points(), name) ==> old(data).state().uuid
            < usize::MAX,
    ensures
        final(data).wf(),
        final(data).state().sound(),
        final(data).callback() == match old(data).callback() {
            Some(c) => Some(c),
            None => Some(callback),
        },
        old(data).state().pushes(
            settings.entry_points(),
            name,
            loc,
            now,
            final(data).state(),
            source(until),
        ),
{
    data.register(callback);
    outline(settings, data, name, loc, now)
}

impl Until {
    /// Ends the span. A span that took less than the minimum that was set is dropped, unless it is
    /// the outermost one; what was recorded inside it goes to its parent.
    ///
    /// What is to be logged comes back, and when it is the outermost span, the complete trace:
    /// the records come first, and then the trace is to be handed out.
    pub fn close<G, H, C>(
        self,
        settings: &Settings<G, H>,
        data: &mut StencilThreadData<C>,
        now: SystemTime,
    ) -> (closing: Closing<C>)
        requires
            settings.wf(),
            old(data).wf(),
            old(data).state().completes(self.source) ==> old(data).state().generation
                < usize::MAX,
        ensures
            final(data).wf(),
            final(data).state().sound(),
            final(data).state() == old(data).state().popped(
                self.source,
                now,
                settings.duration_minimum@,
            ),
            final(data).callback() == if old(data).state().completes(self.source) {
                None
            } else {
                old(data).callback()
            },
            closes_with(old(data).state(), old(data).callback(), self.source, now, closing),
    {
        data.pop(&self.source, now, settings.duration_minimum.get())
    }
}

/// Set the callback to invoke whenever a flame chart trace is complete. If the callback returns
/// `Some(msg)`, `msg` will be logged. If it returns None, it won't log, and the only effect will
/// be any side-effects of the callback (which you can use to handle the trace any way you like).
pub fn set_flame_chart_handler<G, H>(settings: &mut Settings<G, H>, handler: H) -> (outcome:
    SetConfigOutcome)
    requires
        old(settings).wf(),
    ensures
        final(settings).wf(),
        (outcome == SetConfigOutcome::NowSet) == (old(settings).flame_chart_handler@ is None),
        final(settings).flame_chart_handler@ == match old(settings).flame_chart_handler@ {
            Some(h) => Some(h),
            None => Some(handler),
        },
        *final(settings) == (Settings {
            flame_chart_handler: final(settings).flame_chart_handler,
            ..*old(settings)
        }),
{
    settings.flame_chart_handler.set(handler)
}

/// Set the minimum duration entry to be traced: every inner span that took less is dropped when it
/// is over.
pub fn set_flame_chart_min_duration<G, H>(settings: &mut Settings<G, H>, minimum: Duration) -> (outcome:
    SetConfigOutcome)
    requires
        old(settings).wf(),
    ensures
        final(settings).wf(),
        (outcome == SetConfigOutcome::NowSet) == (old(settings).duration_minimum@ is None),
        final(settings).duration_minimum@ == match old(settings).duration_minimum@ {
            Some(m) => Some(m),
            None => Some(minimum),
        },
        *final(settings) == (Settings {
            duration_minimum: final(settings).duration_minimum,
            ..*old(settings)
        }),
{
    settings.duration_minimum.set(minimum)
}

} // verus!
