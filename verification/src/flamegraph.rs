//! Flame graphs: all the calls along one path count together.

use vstd::prelude::*;
use vstd::std_specs::cmp::PartialEqSpecImpl;

use crate::config::{target, SetConfigOutcome, Settings};
use crate::logging::{text_of, view_of, warning, Level, LogRecord, RecordView};
use crate::text::{decimal, is_listed, joined, listed, push_decimal, same_str};
use crate::time::{Duration, Instant};
use crate::vec_trie::{lemma_children_among, link, Index, TrieView, VecTrie, Visitor};

verus! {

/// Where a span is declared.
#[derive(Debug, Clone, Copy)]
pub struct CallSite {
    /// The name of the span.
    pub name: &'static str,
    /// The filepath and line of the span.
    pub loc: &'static str,
}

impl PartialEq for CallSite {
    fn eq(&self, other: &Self) -> (same: bool) {
        same_str(self.name, other.name) && same_str(self.loc, other.loc)
    }
}

impl Eq for CallSite {

}

impl PartialEqSpecImpl for CallSite {
    open spec fn obeys_eq_spec() -> bool {
        true
    }

    open spec fn eq_spec(&self, other: &Self) -> bool {
        self.name@ == other.name@ && self.loc@ == other.loc@
    }
}

/// What was measured of all the calls along one path.
#[derive(Debug, Clone, Copy, PartialEq, Eq, Structural)]
pub struct Measurement {
    /// How long they took together.
    pub duration: Duration,
    /// How many there were.
    pub num_invocations: usize,
}

impl Default for Measurement {
    fn default() -> (none: Self)
        ensures
            none == (Measurement { duration: Duration { nanos: 0 }, num_invocations: 0 }),
    {
        Measurement { duration: Duration { nanos: 0 }, num_invocations: 0 }
    }
}

/// A call that is not over.
#[derive(Debug, Clone, Copy)]
pub struct StackFrame {
    /// The node of the call.
    pub index: Index,
    /// When the call began.
    pub start: Instant,
}

/// A flame graph trace.
pub struct FlameGraph {
    trie: VecTrie<CallSite, Measurement>,
    stack: Vec<StackFrame>,
}

/// The nodes of a flame graph.
pub type Nodes = TrieView<CallSite, Measurement>;

/// What a [`FlameGraph`] holds.
#[verifier::ext_equal]
pub ghost struct GraphState {
    /// The calls by path, with what was measured of them.
    pub nodes: Nodes,
    /// The calls that are not over, outermost first.
    pub stack: Seq<StackFrame>,
}

impl GraphState {
    /// A trace without calls.
    pub open spec fn empty() -> GraphState {
        GraphState { nodes: TrieView::empty(), stack: Seq::empty() }
    }

    /// The node of the innermost open call.
    pub open spec fn innermost(self) -> Option<int> {
        if self.stack.len() == 0 {
            None
        } else {
            Some(self.stack.last().index.position as int)
        }
    }

    /// Whether the open call at position `k` of the stack has a node, whose parent is that of the
    /// next outer open call.
    pub open spec fn follows(self, k: int) -> bool {
        let i = self.stack[k].index.position as int;
        &&& i < self.nodes.len()
        &&& self.nodes.parents[i] == if k == 0 {
            None
        } else {
            Some(self.stack[k - 1].index.position as int)
        }
    }

    /// Whether the open calls lie along one path from the root.
    pub open spec fn stacked(self) -> bool {
        forall|k: int| 0 <= k < self.stack.len() ==> #[trigger] self.follows(k)
    }

    /// Whether making a call at `site` leads from this state to `next`, with the call at `index`.
    pub open spec fn pushes(self, site: CallSite, now: Instant, next: GraphState, index: Index) -> bool {
        &&& next.stack == self.stack.push(StackFrame { index, start: now })
        &&& if self.nodes.has_child(self.innermost(), site) {
            &&& self.nodes.is_child(self.innermost(), site, index.position as int)
            &&& next.nodes == self.nodes
        } else {
            &&& index.position == self.nodes.len()
            &&& next.nodes == self.nodes.with_node(
                self.innermost(),
                site,
                Measurement { duration: Duration { nanos: 0 }, num_invocations: 0 },
            )
        }
    }

    /// Whether the call at position `k` of the stack is the one at `index`.
    pub open spec fn open_at(self, index: Index, k: int) -> bool {
        0 <= k < self.stack.len() && self.stack[k].index == index
    }

    /// Whether a call at `index` is not over.
    pub open spec fn is_open(self, index: Index) -> bool {
        exists|k: int| self.open_at(index, k)
    }

    /// The nanoseconds that the call at position `k` of the stack took, if it ends now.
    pub open spec fn elapsed(self, k: int, now: Instant) -> nat {
        Instant::elapsed_nanos(self.stack[k].start, now)
    }

    /// What was measured at the node of the call at position `k` of the stack, if it ends now.
    pub open spec fn measured(self, k: int, now: Instant) -> Measurement {
        let before = self.nodes.values[self.stack[k].index.position as int];
        Measurement {
            duration: Duration { nanos: (before.duration.nanos + self.elapsed(k, now)) as u128 },
            num_invocations: (before.num_invocations + 1) as usize,
        }
    }

    /// Whether what is measured of the call at position `k` of the stack, if it ends now, is in
    /// range.
    pub open spec fn in_range(self, k: int, now: Instant) -> bool {
        let before = self.nodes.values[self.stack[k].index.position as int];
        &&& before.duration.nanos + self.elapsed(k, now) <= u128::MAX
        &&& before.num_invocations < usize::MAX
    }

    /// The call at position `k` of the stack ends now, and the calls that it made are over too.
    pub open spec fn closed_at(self, k: int, now: Instant) -> GraphState {
        GraphState {
            nodes: self.nodes.with_value(
                self.stack[k].index.position as int,
                self.measured(k, now),
            ),
            stack: self.stack.take(k),
        }
    }

    /// Whether ending the call at `index` leads from this state to `next`. If no such call is
    /// open, nothing changes.
    pub open spec fn pops(self, index: Index, now: Instant, next: GraphState) -> bool {
        if self.is_open(index) {
            exists|k: int| #[trigger] self.open_at(index, k) && next == self.closed_at(k, now)
        } else {
            next == self
        }
    }
}

/// The positions of the open calls grow along the path.
pub proof fn lemma_stack_grows(state: GraphState, k: int, l: int)
    requires
        state.nodes.rooted(),
        state.stacked(),
        0 <= k < l < state.stack.len(),
    ensures
        state.stack[k].index.position < state.stack[l].index.position,
    decreases l - k,
{
    assert(state.follows(l));
    if k < l - 1 {
        lemma_stack_grows(state, k, l - 1);
    }
}

impl FlameGraph {
    /// What is recorded.
    pub closed spec fn state(&self) -> GraphState {
        GraphState { nodes: self.trie@, stack: self.stack@ }
    }

    /// The nodes are in order, and the open calls lie along one path from the root.
    pub closed spec fn wf(&self) -> bool {
        self.trie.wf() && self.state().stacked()
    }

    /// The nodes of a well-formed flame graph form one tree without equal siblings.
    pub proof fn lemma_wf(&self)
        requires
            self.wf(),
        ensures
            self.state().nodes.rooted(),
            self.state().nodes.distinct_siblings(),
            self.state().stacked(),
    {
        self.trie.lemma_wf();
    }

    /// Nothing is recorded.
    pub fn new() -> (graph: FlameGraph)
        ensures
            graph.wf(),
            graph.state() == GraphState::empty(),
    {
        FlameGraph { trie: VecTrie::new(), stack: Vec::new() }
    }

    /// Whether nothing is recorded.
    pub fn is_empty(&self) -> (empty: bool)
        requires
            self.wf(),
        ensures
            empty == (self.state().nodes.len() == 0),
    {
        self.trie.is_empty()
    }

    /// Makes a call.
    pub fn push(&mut self, name: &'static str, loc: &'static str, now: Instant) -> (index: Index)
        requires
            old(self).wf(),
            old(self).state().stack.len() == 0 ==> old(self).state().nodes.len() == 0,
        ensures
            final(self).wf(),
            old(self).state().pushes(CallSite { name, loc }, now, final(self).state(), index),
    {
        let parent: Option<Index> = match self.stack.last() {
            Some(frame) => Some(frame.index),
            None => None,
        };
        proof {
            if self.stack@.len() > 0 {
                assert(self.state().follows(self.stack@.len() - 1));
            }
            assert(link(parent) == self.state().innermost());
        }
        let child = self.trie.insert_child(parent, CallSite { name, loc });
        self.stack.push(StackFrame { index: child, start: now });
        proof {
            assert forall|k: int| 0 <= k < self.stack@.len() implies #[trigger] self.state().follows(k) by {
                if k < old(self).stack@.len() {
                    assert(old(self).state().follows(k));
                }
            }
        }
        child
    }

    /// Ends the call at `index`. The calls that are open inside it are given up; if it is not
    /// open itself, nothing changes. Returns whether it was open.
    pub fn pop(&mut self, index: Index, now: Instant) -> (was_open: bool)
        requires
            old(self).wf(),
            forall|k: int| #[trigger]
                old(self).state().open_at(index, k) ==> old(self).state().in_range(k, now),
        ensures
            final(self).wf(),
            was_open == old(self).state().is_open(index),
            old(self).state().pops(index, now, final(self).state()),
    {
        let ghost before = self.state();
        let mut k: usize = self.stack.len();
        while k > 0
            invariant
                before == old(self).state(),
                old(self).wf(),
                *self == *old(self),
                k <= before.stack.len(),
                forall|j: int| k <= j < before.stack.len() ==> !(#[trigger] before.open_at(index, j)),
                forall|j: int| #[trigger] before.open_at(index, j) ==> before.in_range(j, now),
            decreases k,
        {
            k -= 1;
            let frame = self.stack[k];
            if frame.index == index {
                assert(before.open_at(index, k as int));
                let duration = now.saturating_duration_since(&frame.start);
                proof {
                    assert(before.in_range(k as int, now));
                    assert(before.follows(k as int));
                }
                self.stack.truncate(k);
                let value = self.trie.value_mut(index);
                value.duration = Duration::from_nanos(value.duration.nanos + duration.nanos);
                value.num_invocations += 1;
                proof {
                    assert(self.state() =~= before.closed_at(k as int, now));
                    assert forall|j: int| 0 <= j < self.stack@.len() implies #[trigger] self.state().follows(j) by {
                        assert(before.follows(j));
                    }
                }
                return true;
            }
        }
        assert(!before.is_open(index));
        false
    }
}

/// The nanoseconds that the calls at some nodes took together.
pub open spec fn nanos_at(nodes: Nodes, list: Seq<int>) -> nat
    decreases list.len(),
{
    if list.len() == 0 {
        0
    } else {
        nanos_at(nodes, list.drop_last()) + nodes.values[list.last()].duration.nanos as nat
    }
}

/// The nanoseconds that the calls made from the calls at node `i` took together.
pub open spec fn inner_nanos(nodes: Nodes, i: int) -> nat {
    nanos_at(nodes, nodes.children(i))
}

/// The nanoseconds that the calls at node `i` took themselves.
pub open spec fn own_nanos(nodes: Nodes, i: int) -> int {
    nodes.values[i].duration.nanos - inner_nanos(nodes, i)
}

/// Whether no call took less time than the calls that it made.
pub open spec fn nested(nodes: Nodes) -> bool {
    forall|i: int| 0 <= i < nodes.len() ==> #[trigger] own_nanos(nodes, i) >= 0
}

/// Whether node `i` is node `top` or lies below it.
pub open spec fn at_or_below(nodes: Nodes, top: int, i: int) -> bool
    decreases i,
{
    i == top || (nodes.parents[i] matches Some(p) && 0 <= p < i && at_or_below(nodes, top, p))
}

/// Whether at node `top` and below it no call took less time than the calls that it made.
pub open spec fn nested_below(nodes: Nodes, top: int) -> bool {
    forall|i: int|
        0 <= i < nodes.len() && at_or_below(nodes, top, i) ==> #[trigger] own_nanos(nodes, i) >= 0
}

/// What lies below a child lies below its parent.
pub proof fn lemma_below_child(nodes: Nodes, top: int, child: int, i: int)
    requires
        nodes.rooted(),
        0 < child < nodes.len(),
        nodes.parents[child] == Some(top),
        0 <= i < nodes.len(),
        at_or_below(nodes, child, i),
    ensures
        at_or_below(nodes, top, i),
    decreases i,
{
    assert(at_or_below(nodes, top, top));
    if i != child {
        lemma_below_child(nodes, top, child, nodes.parents[i]->0);
    }
}

/// How a node is written.
pub open spec fn frame_text(nodes: Nodes, i: int) -> Seq<char> {
    nodes.keys[i].name@ + " "@ + nodes.keys[i].loc@ + " ("@ + decimal(
        nodes.values[i].num_invocations as nat,
    ) + " calls)"@
}

/// How the nodes along a path are written.
pub open spec fn header_text(nodes: Nodes, path: Seq<int>) -> Seq<char> {
    joined(path.map_values(|i: int| frame_text(nodes, i)), ";"@)
}

/// The line for the node at the end of a path: the path, and the whole microseconds that the
/// calls took themselves.
pub open spec fn path_line(nodes: Nodes, path: Seq<int>) -> Seq<char> {
    header_text(nodes, path) + " "@ + decimal(own_nanos(nodes, path.last()) as nat / 1000) + "\n"@
}

/// The lines for the node at the end of a path and for all nodes below it.
pub open spec fn subtree_text(nodes: Nodes, path: Seq<int>) -> Seq<char>
    decreases nodes.len() - path.last(), nodes.children(path.last()).len() + 1,
    when nodes.rooted() && path.len() > 0 && 0 <= path.last() < nodes.len()
{
    path_line(nodes, path) + children_text(nodes, path, nodes.children(path.last()).len())
}

/// The lines for the first `n` children of the node at the end of a path and for all nodes below
/// them.
pub open spec fn children_text(nodes: Nodes, path: Seq<int>, n: nat) -> Seq<char>
    decreases nodes.len() - path.last(), n,
    when nodes.rooted() && path.len() > 0 && 0 <= path.last() < nodes.len() && n <= nodes.children(
    path.last(),
).len()
    via children_text_decreases
{
    if n == 0 {
        Seq::empty()
    } else {
        children_text(nodes, path, (n - 1) as nat) + subtree_text(
            nodes,
            path.push(nodes.children(path.last())[n - 1]),
        )
    }
}

#[via_fn]
proof fn children_text_decreases(nodes: Nodes, path: Seq<int>, n: nat) {
    lemma_children_among(nodes.parents, path.last(), nodes.len());
    if n > 0 {
        let c = nodes.children(path.last())[n - 1];
        assert(nodes.parents[c] == Some(path.last()));
    }
}

/// The numbers of the nodes along a path.
pub open spec fn numbers(path: Seq<Visitor<'_, CallSite, Measurement>>) -> Seq<int> {
    path.map_values(|node: Visitor<'_, CallSite, Measurement>| node.position as int)
}

/// Whether a path lies in the trie that holds `nodes`.
pub open spec fn within(path: Seq<Visitor<'_, CallSite, Measurement>>, nodes: Nodes) -> bool {
    forall|k: int| 0 <= k < path.len() ==> (#[trigger] path[k]).wf() && path[k].trie@ == nodes
}

/// How many nodes there are from the last one of a path on.
pub open spec fn nodes_left(path: Seq<Visitor<'_, CallSite, Measurement>>) -> int {
    if path.len() == 0 {
        0
    } else {
        path.last().trie@.len() - path.last().position
    }
}

/// Appends a node as it is written in a line.
fn write_frame(writer: &mut String, node: &Visitor<'_, CallSite, Measurement>)
    requires
        node.wf(),
    ensures
        final(writer)@ == old(writer)@ + frame_text(node.trie@, node.position as int),
{
    let ghost before = writer@;
    writer.append(node.key().name);
    writer.append(" ");
    writer.append(node.key().loc);
    writer.append(" (");
    push_decimal(writer, node.value().num_invocations as u128);
    writer.append(" calls)");
    assert(writer@ =~= before + frame_text(node.trie@, node.position as int));
}

/// Appends the lines for the node at the end of the path `stack` and for all nodes below it;
/// nothing for an empty path.
pub fn write_flame_graph<'a>(
    writer: &mut String,
    stack: &mut Vec<Visitor<'a, CallSite, Measurement>>,
)
    requires
        old(stack)@.len() > 0 ==> {
            &&& within(old(stack)@, old(stack)@.last().trie@)
            &&& nested_below(old(stack)@.last().trie@, old(stack)@.last().position as int)
        },
    ensures
        final(stack)@ == old(stack)@,
        final(writer)@ == old(writer)@ + if old(stack)@.len() > 0 {
            subtree_text(old(stack)@.last().trie@, numbers(old(stack)@))
        } else {
            Seq::empty()
        },
    decreases nodes_left(old(stack)@),
{
    if stack.len() == 0 {
        assert(writer@ =~= old(writer)@ + Seq::<char>::empty());
        return;
    }
    let ghost start = writer@;
    let ghost path = stack@;
    let ghost nodes = path.last().trie@;
    let ghost ids = numbers(path);
    let ghost frames = ids.map_values(|i: int| frame_text(nodes, i));
    let mut i: usize = 0;
    while i < stack.len()
        invariant
            i <= stack@.len(),
            stack@ == path,
            within(path, nodes),
            ids == numbers(path),
            frames == ids.map_values(|i: int| frame_text(nodes, i)),
            writer@ == start + joined(frames.take(i as int), ";"@) + if 0 < i < path.len() {
                ";"@
            } else {
                Seq::empty()
            },
        decreases stack@.len() - i,
    {
        let ghost before = writer@;
        write_frame(writer, &stack[i]);
        if i + 1 < stack.len() {
            writer.append(";");
        }
        i += 1;
        proof {
            let taken = frames.take(i as int);
            assert(taken.drop_last() =~= frames.take(i - 1));
            assert(taken.last() == frame_text(nodes, path[i - 1].position as int));
            assert(writer@ =~= start + joined(taken, ";"@) + if 0 < i < path.len() {
                ";"@
            } else {
                Seq::empty()
            });
        }
    }
    assert(frames.take(path.len() as int) =~= frames);
    let depth = stack.len();
    let node = Visitor { trie: stack[depth - 1].trie, position: stack[depth - 1].position };
    let ghost here = node.position as int;
    assert(ids.last() == here);
    proof {
        node.trie.lemma_wf();
        lemma_children_among(nodes.parents, here, nodes.len());
        assert(at_or_below(nodes, here, here));
        assert(own_nanos(nodes, here) >= 0);
    }
    let children = node.children();
    let mut nanos: u128 = node.value().duration.nanos;
    let ghost list = nodes.children(here);
    let mut k: usize = 0;
    while k < children.len()
        invariant
            k <= children@.len(),
            node.wf(),
            node.trie@ == nodes,
            own_nanos(nodes, here) >= 0,
            list == nodes.children(here),
            children@.len() == list.len(),
            forall|j: int|
                0 <= j < children@.len() ==> (#[trigger] children@[j]).wf() && children@[j].trie
                    == node.trie && children@[j].position == list[j],
            nanos == nodes.values[here].duration.nanos - nanos_at(nodes, list.take(k as int)),
        decreases children@.len() - k,
    {
        proof {
            lemma_nanos_grow(nodes, list, k as int + 1);
            let taken = list.take(k as int + 1);
            assert(taken.drop_last() =~= list.take(k as int));
        }
        nanos = nanos - children[k].value().duration.nanos;
        k += 1;
    }
    proof {
        assert(list.take(list.len() as int) =~= list);
    }
    writer.append(" ");
    push_decimal(writer, Duration::from_nanos(nanos).as_micros());
    writer.append("\n");
    assert(writer@ =~= start + path_line(nodes, ids));
    k = 0;
    while k < children.len()
        invariant
            k <= children@.len(),
            nodes.rooted(),
            nested_below(nodes, here),
            stack@ == path,
            path.len() > 0,
            within(path, nodes),
            ids == numbers(path),
            ids.last() == here,
            path.last().trie@ == nodes,
            path == old(stack)@,
            path.last().position == here,
            0 <= here < nodes.len(),
            node.trie@ == nodes,
            list == nodes.children(here),
            children@.len() == list.len(),
            forall|j: int|
                0 <= j < list.len() ==> here < #[trigger] list[j] < nodes.len()
                    && nodes.parents[list[j]] == Some(here),
            forall|j: int|
                0 <= j < children@.len() ==> (#[trigger] children@[j]).wf() && children@[j].trie
                    == node.trie && children@[j].position == list[j],
            writer@ == start + path_line(nodes, ids) + children_text(nodes, ids, k as nat),
        decreases children@.len() - k,
    {
        let ghost before = writer@;
        stack.push(Visitor { trie: children[k].trie, position: children[k].position });
        assert(numbers(stack@) =~= ids.push(list[k as int]));
        proof {
            let child = list[k as int];
            assert forall|i: int|
                0 <= i < nodes.len() && at_or_below(nodes, child, i) implies #[trigger] own_nanos(
                nodes,
                i,
            ) >= 0 by {
                lemma_below_child(nodes, here, child, i);
            }
        }
        write_flame_graph(writer, stack);
        stack.pop();
        assert(stack@ =~= path);
        k += 1;
        assert(writer@ =~= start + path_line(nodes, ids) + children_text(nodes, ids, k as nat));
    }
    assert(writer@ =~= start + subtree_text(nodes, ids));
}

/// The calls at fewer nodes took no longer.
proof fn lemma_nanos_grow(nodes: Nodes, list: Seq<int>, n: int)
    requires
        0 <= n <= list.len(),
    ensures
        nanos_at(nodes, list.take(n)) <= nanos_at(nodes, list),
    decreases list.len() - n,
{
    if n < list.len() {
        lemma_nanos_grow(nodes, list, n + 1);
        assert(list.take(n + 1).drop_last() =~= list.take(n));
    } else {
        assert(list.take(n) =~= list);
    }
}

/// A node and the nodes below it in short: the name and the number of calls of each.
pub open spec fn short_text(nodes: Nodes, i: int) -> Seq<char>
    decreases nodes.len() - i, nodes.children(i).len() + 1,
    when nodes.rooted() && 0 <= i < nodes.len()
{
    let n = nodes.children(i).len();
    nodes.keys[i].name@ + " ("@ + decimal(nodes.values[i].num_invocations as nat) + " calls)"@
        + if n == 0 {
        "; "@
    } else {
        " { "@ + short_children_text(nodes, i, n) + "}"@
    }
}

/// The first `n` children of a node and the nodes below them in short.
pub open spec fn short_children_text(nodes: Nodes, i: int, n: nat) -> Seq<char>
    decreases nodes.len() - i, n,
    when nodes.rooted() && 0 <= i < nodes.len() && n <= nodes.children(i).len()
    via short_children_text_decreases
{
    if n == 0 {
        Seq::empty()
    } else {
        short_children_text(nodes, i, (n - 1) as nat) + short_text(nodes, nodes.children(i)[n - 1])
    }
}

#[via_fn]
proof fn short_children_text_decreases(nodes: Nodes, i: int, n: nat) {
    lemma_children_among(nodes.parents, i, nodes.len());
    if n > 0 {
        let c = nodes.children(i)[n - 1];
        assert(nodes.parents[c] == Some(i));
    }
}

/// Appends a node and the nodes below it in short, without the times, which differ from run to
/// run.
pub fn write_trace_for_testing(writer: &mut String, node: &Visitor<'_, CallSite, Measurement>)
    requires
        node.wf(),
    ensures
        final(writer)@ == old(writer)@ + short_text(node.trie@, node.position as int),
    decreases node.trie@.len() - node.position,
{
    let ghost start = writer@;
    let ghost nodes = node.trie@;
    let ghost here = node.position as int;
    proof {
        node.trie.lemma_wf();
        lemma_children_among(nodes.parents, here, nodes.len());
    }
    writer.append(node.key().name);
    writer.append(" (");
    push_decimal(writer, node.value().num_invocations as u128);
    writer.append(" calls)");
    let children = node.children();
    let childless = children.len() == 0;
    if childless {
        writer.append("; ");
    } else {
        writer.append(" { ");
    }
    let ghost head = writer@;
    let ghost list = nodes.children(here);
    let mut k: usize = 0;
    while k < children.len()
        invariant
            k <= children@.len(),
            nodes.rooted(),
            0 <= here < nodes.len(),
            node.trie@ == nodes,
            node.position == here,
            list == nodes.children(here),
            children@.len() == list.len(),
            forall|j: int| 0 <= j < list.len() ==> here < #[trigger] list[j] < nodes.len(),
            forall|j: int|
                0 <= j < children@.len() ==> (#[trigger] children@[j]).wf() && children@[j].trie
                    == node.trie && children@[j].position == list[j],
            writer@ == head + short_children_text(nodes, here, k as nat),
        decreases children@.len() - k,
    {
        write_trace_for_testing(writer, &children[k]);
        k += 1;
        assert(writer@ =~= head + short_children_text(nodes, here, k as nat));
    }
    if !childless {
        writer.append("}");
    }
    assert(writer@ =~= start + short_text(nodes, here));
}

impl FlameGraph {
    /// The outermost call, if there is one.
    pub fn root(&self) -> (root: Option<Visitor<'_, CallSite, Measurement>>)
        requires
            self.wf(),
        ensures
            self.state().nodes.len() == 0 ==> root is None,
            self.state().nodes.len() > 0 ==> (root matches Some(node) && node.wf()
                && node.trie@ == self.state().nodes && node.position == 0),
    {
        self.trie.root()
    }

    /// The duration of the outermost call in this trace.
    pub fn total_duration(&self) -> (duration: Duration)
        requires
            self.wf(),
        ensures
            duration == if self.state().nodes.len() > 0 {
                self.state().nodes.values[0].duration
            } else {
                Duration { nanos: 0 }
            },
    {
        if let Some(root) = self.trie.root() {
            root.value().duration
        } else {
            Duration::from_nanos(0)
        }
    }

    /// The name of the outermost call in this trace.
    pub fn outermost_call(&self) -> (name: &'static str)
        requires
            self.wf(),
        ensures
            name@ == if self.state().nodes.len() > 0 {
                self.state().nodes.keys[0].name@
            } else {
                "Empty call stack"@
            },
    {
        if let Some(root) = self.trie.root() {
            root.key().name
        } else {
            "Empty call stack"
        }
    }

    /// Turn this trace into input for a flame graph library.
    pub fn as_flame_graph_input(&self) -> (text: Option<String>)
        requires
            self.wf(),
            nested(self.state().nodes),
        ensures
            text_of(text) == if self.state().nodes.len() > 0 {
                Some(subtree_text(self.state().nodes, seq![0]))
            } else {
                None
            },
    {
        if let Some(root) = self.trie.root() {
            let mut flame: String = String::new();
            let mut stack: Vec<Visitor<'_, CallSite, Measurement>> = Vec::new();
            stack.push(root);
            proof {
                assert(numbers(stack@) =~= seq![0int]);
                assert(within(stack@, stack@.last().trie@));
            }
            write_flame_graph(&mut flame, &mut stack);
            proof {
                assert(flame@ =~= subtree_text(self.state().nodes, seq![0]));
            }
            Some(flame)
        } else {
            None
        }
    }

    /// Whether no call took less time than the calls that it made.
    pub fn is_nested(&self) -> (yes: bool)
        requires
            self.wf(),
        ensures
            yes == nested(self.state().nodes),
    {
        let ghost nodes = self.state().nodes;
        proof {
            self.trie.lemma_wf();
        }
        let mut i: usize = 0;
        let len = self.trie.len();
        while i < len
            invariant
                self.wf(),
                nodes == self.state().nodes,
                len == nodes.len(),
                i <= len,
                forall|j: int| 0 <= j < i ==> #[trigger] own_nanos(nodes, j) >= 0,
            decreases len - i,
        {
            let node = Visitor { trie: &self.trie, position: i };
            let children = node.children();
            let mut left: u128 = node.value().duration.nanos;
            let ghost list = nodes.children(i as int);
            let mut k: usize = 0;
            while k < children.len()
                invariant
                    k <= children@.len(),
                    nodes == self.state().nodes,
                    node.wf(),
                    node.trie@ == nodes,
                    i < nodes.len(),
                    list == nodes.children(i as int),
                    children@.len() == list.len(),
                    forall|j: int|
                        0 <= j < children@.len() ==> (#[trigger] children@[j]).wf()
                            && children@[j].trie == node.trie && children@[j].position
                            == list[j],
                    left == nodes.values[i as int].duration.nanos - nanos_at(
                        nodes,
                        list.take(k as int),
                    ),
                decreases children@.len() - k,
            {
                let nanos = children[k].value().duration.nanos;
                proof {
                    lemma_nanos_grow(nodes, list, k as int + 1);
                    assert(list.take(k as int + 1).drop_last() =~= list.take(k as int));
                }
                if left < nanos {
                    assert(own_nanos(nodes, i as int) < 0);
                    return false;
                }
                left = left - nanos;
                k += 1;
            }
            assert(list.take(list.len() as int) =~= list);
            i += 1;
        }
        true
    }
}

/// Whether `f` can be called on any flame graph.
pub open spec fn graph_callable<F: Fn(&FlameGraph) -> Option<String>>(f: F) -> bool {
    forall|graph: &FlameGraph| graph.wf() ==> #[trigger] call_requires(f, (graph,))
}

/// Whether `message` is what `f` can have to say about a trace.
pub open spec fn graph_says<F: Fn(&FlameGraph) -> Option<String>>(
    f: F,
    trace: GraphState,
    message: Option<Seq<char>>,
) -> bool {
    exists|graph: &FlameGraph, answer: Option<String>|
        graph.wf() && graph.state() == trace && #[trigger] call_ensures(f, (graph,), answer)
            && text_of(answer) == message
}

/// The text of a trace that nothing was registered for: the input for a flame graph library; or,
/// if some call took less time than the calls that it made, the calls without their times.
pub open spec fn default_text(nodes: Nodes) -> Seq<char> {
    if nested(nodes) {
        subtree_text(nodes, seq![0])
    } else {
        short_text(nodes, 0)
    }
}

/// Whether `message` is what there can be to say about a trace: by the callback for this trace,
/// else by the handler for all traces, else the text of the trace.
pub open spec fn graph_reports<
    C: Fn(&FlameGraph) -> Option<String>,
    F: Fn(&FlameGraph) -> Option<String>,
>(callback: Option<C>, handler: Option<F>, trace: GraphState, message: Option<Seq<char>>) -> bool {
    match callback {
        Some(c) => graph_says(c, trace, message),
        None => match handler {
            Some(h) => graph_says(h, trace, message),
            None => message == Some(default_text(trace.nodes)),
        },
    }
}

/// Whether `record` is what there can be to log about a trace: what there is to say about it, as
/// a warning.
pub open spec fn graph_logs<
    C: Fn(&FlameGraph) -> Option<String>,
    F: Fn(&FlameGraph) -> Option<String>,
>(callback: Option<C>, handler: Option<F>, trace: GraphState, record: Option<RecordView>) -> bool {
    exists|message: Option<Seq<char>>| #[trigger]
        graph_reports(callback, handler, trace, message) && record == warning(message)
}

/// The flame graph trace of one thread. `C` is a callback for a complete trace.
pub struct GraphThreadData<C> {
    graph: FlameGraph,
    callback: Option<C>,
}

impl<C> GraphThreadData<C> {
    /// What is recorded.
    pub closed spec fn state(&self) -> GraphState {
        self.graph.state()
    }

    /// The callback for the current trace.
    pub closed spec fn callback(&self) -> Option<C> {
        self.callback
    }

    /// The trace is in order, and there is none, and no callback for it, unless a call is open.
    pub closed spec fn wf(&self) -> bool {
        &&& self.graph.wf()
        &&& (self.state().stack.len() == 0) == (self.state().nodes.len() == 0)
        &&& self.state().stack.len() == 0 ==> self.callback is None
    }

    /// What a well-formed trace looks like.
    pub proof fn lemma_wf(&self)
        requires
            self.wf(),
        ensures
            self.state().nodes.rooted(),
            self.state().nodes.distinct_siblings(),
            self.state().stacked(),
            (self.state().stack.len() == 0) == (self.state().nodes.len() == 0),
            self.state().stack.len() == 0 ==> self.callback() is None,
    {
        self.graph.lemma_wf();
    }

    /// Nothing is recorded.
    pub fn new() -> (data: Self)
        ensures
            data.wf(),
            data.state() == GraphState::empty(),
            data.callback() is None,
    {
        GraphThreadData { graph: FlameGraph::new(), callback: None }
    }

    /// Makes a call. A callback is kept for the current trace, if there isn't one yet.
    pub fn push(
        &mut self,
        name: &'static str,
        loc: &'static str,
        callback: Option<C>,
        now: Instant,
    ) -> (index: Index)
        requires
            old(self).wf(),
        ensures
            final(self).wf(),
            old(self).state().pushes(CallSite { name, loc }, now, final(self).state(), index),
            final(self).callback() == match old(self).callback() {
                Some(c) => Some(c),
                None => callback,
            },
    {
        if self.callback.is_none() {
            self.callback = callback;
        }
        self.graph.push(name, loc, now)
    }
}

impl<C: Fn(&FlameGraph) -> Option<String>> GraphThreadData<C> {
    /// Hands the complete trace out and starts afresh. Returns what is to be logged, if anything.
    ///
    /// The trace goes to the callback for this trace, else to `handler`; if there is neither, its
    /// text is logged.
    fn finish_trace<F: Fn(&FlameGraph) -> Option<String>>(&mut self, handler: Option<&F>) -> (record:
        Option<LogRecord>)
        requires
            old(self).graph.wf(),
            old(self).state().stack.len() == 0,
            old(self).state().nodes.len() > 0,
            old(self).callback() matches Some(c) ==> graph_callable(c),
            handler matches Some(h) ==> graph_callable(*h),
        ensures
            final(self).wf(),
            final(self).state() == GraphState::empty(),
            final(self).callback() is None,
            graph_logs(
                old(self).callback(),
                target(handler),
                old(self).state(),
                view_of(record),
            ),
    {
        let message: Option<String> = if let Some(f) = self.callback.take() {
            let answer = f(&self.graph);
            assert(graph_says(f, self.graph.state(), text_of(answer)));
            answer
        } else if let Some(f) = handler {
            let answer = f(&self.graph);
            assert(graph_says(*f, self.graph.state(), text_of(answer)));
            answer
        } else if self.graph.is_nested() {
            self.graph.as_flame_graph_input()
        } else {
            let mut text: String = String::new();
            if let Some(root) = self.graph.root() {
                write_trace_for_testing(&mut text, &root);
            }
            assert(text@ =~= short_text(self.graph.state().nodes, 0));
            Some(text)
        };
        assert(graph_reports(
            old(self).callback(),
            target(handler),
            old(self).state(),
            text_of(message),
        ));
        self.graph.trie.clear();
        assert(self.graph.state() =~= GraphState::empty());
        match message {
            Some(text) => Some(LogRecord { level: Level::Warn, message: text }),
            None => None,
        }
    }

    /// Whether what is measured of the call at `index`, if it ends now, is in range.
    pub fn fits(&self, index: Index, now: Instant) -> (yes: bool)
        requires
            self.wf(),
        ensures
            yes == (forall|k: int| #[trigger]
                self.state().open_at(index, k) ==> self.state().in_range(k, now)),
    {
        let mut k: usize = 0;
        while k < self.graph.stack.len()
            invariant
                self.wf(),
                k <= self.graph.stack@.len(),
                forall|j: int| #[trigger]
                    self.state().open_at(index, j) && j < k ==> self.state().in_range(j, now),
            decreases self.graph.stack@.len() - k,
        {
            let frame = self.graph.stack[k];
            if frame.index == index {
                assert(self.state().open_at(index, k as int));
                assert(self.state().follows(k as int));
                let elapsed = now.saturating_duration_since(&frame.start);
                let before = self.graph.trie.value(index);
                if before.num_invocations == usize::MAX || elapsed.nanos > u128::MAX
                    - before.duration.nanos {
                    return false;
                }
            }
            k += 1;
        }
        true
    }

    /// Ends the call at `index`. Returns what is to be logged, if anything.
    ///
    /// The calls that are open inside it are given up; if it is not open itself, nothing happens.
    /// When the outermost call is over, the trace is complete and is handed out: to the callback
    /// for this trace, else to `handler`; if there is neither, its text is logged.
    pub fn pop<F: Fn(&FlameGraph) -> Option<String>>(
        &mut self,
        index: Index,
        now: Instant,
        handler: Option<&F>,
    ) -> (record: Option<LogRecord>)
        requires
            old(self).wf(),
            forall|k: int| #[trigger]
                old(self).state().open_at(index, k) ==> old(self).state().in_range(k, now),
            old(self).callback() matches Some(c) ==> graph_callable(c),
            handler matches Some(h) ==> graph_callable(*h),
        ensures
            final(self).wf(),
            graph_closing(
                old(self).state(),
                old(self).callback(),
                target(handler),
                index,
                now,
                final(self).state(),
                final(self).callback(),
                view_of(record),
            ),
    {
        let was_open = self.graph.pop(index, now);
        let ghost closed = self.graph.state();
        proof {
            assert(old(self).state().pops(index, now, closed));
            if closed.stack.len() > 0 {
                assert(closed.follows(0));
            }
            if was_open {
                let k = choose|k: int| #[trigger] old(self).state().open_at(index, k);
                assert(old(self).state().follows(k));
            }
        }
        if was_open && self.graph.stack.len() == 0 {
            self.finish_trace(handler)
        } else {
            None
        }
    }
}

/// Whether ending the call at `index` can lead from `state` to `next`, with `record` to be
/// logged.
pub open spec fn graph_closing<
    C: Fn(&FlameGraph) -> Option<String>,
    F: Fn(&FlameGraph) -> Option<String>,
>(
    state: GraphState,
    callback: Option<C>,
    handler: Option<F>,
    index: Index,
    now: Instant,
    next: GraphState,
    next_callback: Option<C>,
    record: Option<RecordView>,
) -> bool {
    exists|closed: GraphState| #[trigger]
        state.pops(index, now, closed) && if state.is_open(index) && closed.stack.len() == 0 {
            &&& next == GraphState::empty()
            &&& next_callback is None
            &&& graph_logs(callback, handler, closed, record)
        } else {
            &&& next == closed
            &&& next_callback == callback
            &&& record is None
        }
}

/// Measures the start & end of a span. The start is when it is constructed, the end is when it is
/// closed.
#[derive(Debug)]
pub struct Span {
    /// The node of the call.
    pub index: Index,
}

impl Span {
    /// Begins a span, unless it would be the outermost one and may not be.
    pub fn new<G, H, C>(
        settings: &Settings<G, H>,
        data: &mut GraphThreadData<C>,
        name: &'static str,
        loc: &'static str,
        callback: Option<C>,
        now: Instant,
    ) -> (span: Option<Span>)
        requires
            settings.wf(),
            old(data).wf(),
        ensures
            final(data).wf(),
            match span {
                Some(s) => {
                    &&& !refuses(old(data).state(), settings.entry_points(), name)
                    &&& old(data).state().pushes(
                        CallSite { name, loc },
                        now,
                        final(data).state(),
                        s.index,
                    )
                    &&& final(data).callback() == match old(data).callback() {
                        Some(c) => Some(c),
                        None => callback,
                    }
                },
                None => {
                    &&& refuses(old(data).state(), settings.entry_points(), name)
                    &&& *final(data) == *old(data)
                },
            },
    {
        if data.graph.is_empty() {
            if let Some(allowed) = settings.allowed_entry_points.get() {
                if !is_listed(allowed, name) {
                    return None;
                }
            }
        }
        Some(Span { index: data.push(name, loc, callback, now) })
    }

    /// Ends the span. Returns what is to be logged, if anything.
    pub fn close<
        G: Fn(&FlameGraph) -> Option<String>,
        H,
        C: Fn(&FlameGraph) -> Option<String>,
    >(self, settings: &Settings<G, H>, data: &mut GraphThreadData<C>, now: Instant) -> (record:
        Option<LogRecord>)
        requires
            settings.wf(),
            old(data).wf(),
            forall|k: int| #[trigger]
                old(data).state().open_at(self.index, k) ==> old(data).state().in_range(k, now),
            old(data).callback() matches Some(c) ==> graph_callable(c),
            settings.flame_graph_handler@ matches Some(h) ==> graph_callable(h),
        ensures
            final(data).wf(),
            graph_closing(
                old(data).state(),
                old(data).callback(),
                settings.flame_graph_handler@,
                self.index,
                now,
                final(data).state(),
                final(data).callback(),
                view_of(record),
            ),
    {
        data.pop(self.index, now, settings.flame_graph_handler.get())
    }
}

/// Whether a span of this name may not begin a trace.
pub open spec fn refuses(
    state: GraphState,
    entry_points: Option<Seq<&'static str>>,
    name: &str,
) -> bool {
    &&& state.nodes.len() == 0
    &&& entry_points matches Some(names)
    &&& !listed(names, name@)
}

/// Set the callback to invoke whenever a flame graph trace is complete. If the callback returns
/// `Some(msg)`, `msg` will be logged. If it returns None, it won't log, and the only effect will
/// be any side-effects of the callback (which you can use to handle the trace any way you like).
pub fn set_flame_graph_handler<G, H>(settings: &mut Settings<G, H>, handler: G) -> (outcome:
    SetConfigOutcome)
    requires
        old(settings).wf(),
    ensures
        final(settings).wf(),
        (outcome == SetConfigOutcome::NowSet) == (old(settings).flame_graph_handler@ is None),
        final(settings).flame_graph_handler@ == match old(settings).flame_graph_handler@ {
            Some(h) => Some(h),
            None => Some(handler),
        },
        *final(settings) == (Settings {
            flame_graph_handler: final(settings).flame_graph_handler,
            ..*old(settings)
        }),
{
    settings.flame_graph_handler.set(handler)
}

} // verus!
