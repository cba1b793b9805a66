//! Turning the events of a flame chart into the text that a flame graph is drawn from.

use vstd::prelude::*;

use crate::flamechart::Callsite;
use crate::text::{
    concatenated, decimal, interleaved, joined, law_concatenating_writes_all,
    law_decimal_reads_back, law_joining_writes_all, law_numerals_are_unique, numeral, push_decimal,
};

verus! {

/// The whole microseconds that the span of an event took; zero if that is not known.
pub open spec fn micros_of(site: Callsite) -> nat {
    match site.end {
        Some(end) => end.micros(),
        None => 0,
    }
}

/// The time of the children of `parent` among the first `n` events, in microseconds.
pub open spec fn shadow_among(stack: Seq<Callsite>, parent: int, n: nat) -> nat
    decreases n,
{
    if n == 0 {
        0
    } else {
        shadow_among(stack, parent, (n - 1) as nat) + match stack[n - 1].parent {
            Some(p) if p == parent => micros_of(stack[n - 1]),
            _ => 0,
        }
    }
}

/// The time of the children of `parent`, in microseconds.
pub open spec fn shadow(stack: Seq<Callsite>, parent: int) -> nat {
    shadow_among(stack, parent, stack.len())
}

/// The event at `target` with all its ancestors, outermost first, if there are at most `n` of
/// them together.
pub open spec fn lineage_within(tree: Seq<Callsite>, target: int, n: nat) -> Option<Seq<int>>
    decreases n,
{
    if n == 0 || target < 0 || target >= tree.len() {
        None
    } else {
        match tree[target].parent {
            Some(p) => match lineage_within(tree, p as int, (n - 1) as nat) {
                Some(ancestors) => Some(ancestors.push(target)),
                None => None,
            },
            None => Some(seq![target]),
        }
    }
}

/// Whether `target` is an event and following the parents from there comes to an end.
pub open spec fn rooted(tree: Seq<Callsite>, target: int) -> bool {
    exists|n: nat| #[trigger] lineage_within(tree, target, n) is Some
}

/// The event at `target` with all its ancestors, outermost first.
pub open spec fn lineage(tree: Seq<Callsite>, target: int) -> Seq<int> {
    lineage_within(tree, target, choose|n: nat| #[trigger] lineage_within(tree, target, n) is Some)->0
}

/// How an event is written.
pub open spec fn frame(tree: Seq<Callsite>, i: int) -> Seq<char> {
    tree[i].name@ + ":"@ + tree[i].loc@ + "`"@ + decimal(i as nat)
}

/// How an event is written together with all its ancestors.
pub open spec fn path_text(tree: Seq<Callsite>, target: int) -> Seq<char> {
    joined(lineage(tree, target).map_values(|i: int| frame(tree, i)), ";"@)
}

/// The time that is written for an event, in microseconds: that of its span which is not shadowed
/// by the spans of its children; zero if the children took no less, or if its own time is not
/// known.
pub open spec fn charted_micros(stack: Seq<Callsite>, i: int) -> nat {
    if shadow(stack, i) <= micros_of(stack[i]) {
        (micros_of(stack[i]) - shadow(stack, i)) as nat
    } else {
        0
    }
}

/// The line for one event.
pub open spec fn chart_line(stack: Seq<Callsite>, i: int) -> Seq<char> {
    path_text(stack, i) + " "@ + decimal(charted_micros(stack, i)) + "\n"@
}

/// Whether each event is the descendant of a root, and no sum of times is out of range.
pub open spec fn chartable(stack: Seq<Callsite>) -> bool {
    &&& forall|i: int| 0 <= i < stack.len() ==> #[trigger] rooted(stack, i)
    &&& in_range(stack)
}

/// Whether no sum of times is out of range.
pub open spec fn in_range(stack: Seq<Callsite>) -> bool {
    forall|i: int| 0 <= i < stack.len() ==> #[trigger] shadow(stack, i) <= u128::MAX
}

/// Two bounds that suffice give the same lineage.
proof fn lemma_lineage_same(tree: Seq<Callsite>, target: int, m: nat, n: nat)
    requires
        lineage_within(tree, target, m) is Some,
        lineage_within(tree, target, n) is Some,
    ensures
        lineage_within(tree, target, m) == lineage_within(tree, target, n),
    decreases m,
{
    if let Some(p) = tree[target].parent {
        lemma_lineage_same(tree, p as int, (m - 1) as nat, (n - 1) as nat);
    }
}

/// A bound that suffices gives the lineage.
pub proof fn lemma_lineage(tree: Seq<Callsite>, target: int, n: nat)
    requires
        lineage_within(tree, target, n) is Some,
    ensures
        lineage_within(tree, target, n) == Some(lineage(tree, target)),
{
    let m = choose|m: nat| #[trigger] lineage_within(tree, target, m) is Some;
    lemma_lineage_same(tree, target, m, n);
}

/// The children of `parent` among fewer events take no longer.
proof fn lemma_shadow_grows(stack: Seq<Callsite>, parent: int, m: nat, n: nat)
    requires
        m <= n <= stack.len(),
    ensures
        shadow_among(stack, parent, m) <= shadow_among(stack, parent, n),
    decreases n,
{
    if m < n {
        lemma_shadow_grows(stack, parent, m, (n - 1) as nat);
    }
}

/// Helper for computing non-shadowed parent time: for each event, the time of its children.
pub fn compute_shadow(stack: &[Callsite]) -> (times: Vec<u128>)
    requires
        forall|i: int|
            0 <= i < stack@.len() ==> ((#[trigger] stack@[i]).parent matches Some(p) ==> p
                < stack@.len()),
        in_range(stack@),
    ensures
        times@.len() == stack@.len(),
        forall|i: int| 0 <= i < stack@.len() ==> (#[trigger] times@[i]) == shadow(stack@, i),
{
    let mut times: Vec<u128> = vec![0; stack.len()];
    let mut k: usize = 0;
    while k < stack.len()
        invariant
            k <= stack@.len(),
            times@.len() == stack@.len(),
            forall|i: int|
                0 <= i < stack@.len() ==> ((#[trigger] stack@[i]).parent matches Some(p) ==> p
                    < stack@.len()),
            in_range(stack@),
            forall|i: int|
                0 <= i < stack@.len() ==> (#[trigger] times@[i]) == shadow_among(
                    stack@,
                    i,
                    k as nat,
                ),
        decreases stack@.len() - k,
    {
        if let Some(p) = stack[k].parent {
            let time: u128 = match stack[k].end {
                Some(end) => end.as_micros(),
                None => 0,
            };
            proof {
                lemma_shadow_grows(stack@, p as int, k as nat + 1, stack@.len());
                assert(shadow(stack@, p as int) <= u128::MAX);
            }
            times[p] = times[p] + time;
        }
        k += 1;
    }
    times
}

/// Helper for collapsing Callsites: the event at `target` with all its ancestors, in one line.
pub fn get_all_parents(tree: &[Callsite], target: usize) -> (text: String)
    requires
        rooted(tree@, target as int),
    ensures
        text@ == path_text(tree@, target as int),
{
    let mut frames: Vec<String> = Vec::new();
    let mut next: Option<usize> = Some(target);
    let ghost n = choose|n: nat| #[trigger] lineage_within(tree@, target as int, n) is Some;
    let ghost whole = lineage(tree@, target as int);
    let ghost left = n;
    while next.is_some()
        invariant
            frames@.len() <= whole.len(),
            match next {
                Some(t) => lineage_within(tree@, t as int, left) == Some(
                    whole.take(whole.len() - frames@.len()),
                ),
                None => frames@.len() == whole.len(),
            },
            forall|j: int|
                0 <= j < frames@.len() ==> (#[trigger] frames@[j])@ == frame(
                    tree@,
                    whole[whole.len() - 1 - j],
                ),
        decreases left,
    {
        let t = next.unwrap();
        let ghost rest = whole.take(whole.len() - frames@.len());
        let mut text: String = String::new();
        text.append(tree[t].name);
        text.append(":");
        text.append(tree[t].loc);
        text.append("`");
        push_decimal(&mut text, t as u128);
        proof {
            assert(rest.last() == t);
        }
        frames.push(text);
        next = tree[t].parent;
        proof {
            left = (left - 1) as nat;
            assert(whole.take(whole.len() - frames@.len()) =~= rest.drop_last());
        }
    }
    let mut result: String = String::new();
    let mut k: usize = frames.len();
    let ghost texts = whole.map_values(|i: int| frame(tree@, i));
    while k > 0
        invariant
            k <= frames@.len(),
            frames@.len() == whole.len(),
            texts == whole.map_values(|i: int| frame(tree@, i)),
            forall|j: int|
                0 <= j < frames@.len() ==> (#[trigger] frames@[j])@ == frame(
                    tree@,
                    whole[whole.len() - 1 - j],
                ),
            result@ == joined(texts.take(whole.len() - k), ";"@),
        decreases k,
    {
        if k < frames.len() {
            result.append(";");
        }
        k -= 1;
        result.append(frames[k].as_str());
        proof {
            let taken = texts.take(whole.len() - k);
            assert(taken.drop_last() =~= texts.take(whole.len() - k - 1));
            assert(taken.last() == frames@[k as int]@);
            assert(result@ =~= joined(taken, ";"@));
        }
    }
    assert(texts.take(whole.len() as int) =~= texts);
    result
}

/// The parent of an event in a tree is an event.
proof fn lemma_parents_exist(stack: Seq<Callsite>)
    requires
        forall|i: int| 0 <= i < stack.len() ==> #[trigger] rooted(stack, i),
    ensures
        forall|i: int|
            0 <= i < stack.len() ==> ((#[trigger] stack[i]).parent matches Some(p) ==> p
                < stack.len()),
{
    assert forall|i: int| 0 <= i < stack.len() implies ((
    #[trigger] stack[i]).parent matches Some(p) ==> p < stack.len()) by {
        assert(rooted(stack, i));
        let n = choose|n: nat| #[trigger] lineage_within(stack, i, n) is Some;
        if let Some(p) = stack[i].parent {
            assert(lineage_within(stack, p as int, (n - 1) as nat) is Some);
        }
    }
}

/// Convert an array of `Callsite`s into a 'stackcollapse' equivalent to the FlameGraph
/// pre-processing step. The output of this function is suitable to directly render as part of a
/// flamegraph.
pub fn call_sites_to_flame_chart(stack: &[Callsite]) -> (text: String)
    requires
        chartable(stack@),
    ensures
        text@ == concatenated(Seq::new(stack@.len(), |i: int| chart_line(stack@, i))),
        text@ == Seq::new(stack@.len(), |i: int| chart_line(stack@, i)).flatten(),
{
    proof {
        lemma_parents_exist(stack@);
    }
    let shadow_times = compute_shadow(stack);
    let mut text: String = String::new();
    let ghost lines = Seq::new(stack@.len(), |i: int| chart_line(stack@, i));
    let mut k: usize = 0;
    while k < stack.len()
        invariant
            k <= stack@.len(),
            chartable(stack@),
            lines == Seq::new(stack@.len(), |i: int| chart_line(stack@, i)),
            shadow_times@.len() == stack@.len(),
            forall|i: int| 0 <= i < stack@.len() ==> (#[trigger] shadow_times@[i]) == shadow(stack@, i),
            text@ == concatenated(lines.take(k as int)),
        decreases stack@.len() - k,
    {
        assert(rooted(stack@, k as int));
        let name = get_all_parents(stack, k);
        let time: u128 = match stack[k].end {
            Some(end) => end.as_micros().saturating_sub(shadow_times[k]),
            None => 0,
        };
        let ghost before = text@;
        text.append(name.as_str());
        text.append(" ");
        push_decimal(&mut text, time);
        text.append("\n");
        k += 1;
        proof {
            let taken = lines.take(k as int);
            assert(taken.drop_last() =~= lines.take(k - 1));
            assert(taken.last() == chart_line(stack@, k - 1));
            assert(time == charted_micros(stack@, k - 1));
            assert(text@ =~= before + chart_line(stack@, k - 1));
            assert(text@ =~= concatenated(taken));
        }
    }
    proof {
        assert(lines.take(stack@.len() as int) =~= lines);
        law_concatenating_writes_all(lines);
    }
    text
}

/// A lineage runs through events of the tree, and what comes before one of them is its own
/// lineage.
proof fn lemma_lineage_prefix(tree: Seq<Callsite>, target: int, n: nat, k: int)
    requires
        lineage_within(tree, target, n) is Some,
        0 <= k < lineage_within(tree, target, n)->0.len(),
    ensures
        0 < lineage_within(tree, target, n)->0.len() <= n,
        0 <= lineage_within(tree, target, n)->0[k] < tree.len(),
        rooted(tree, lineage_within(tree, target, n)->0[k]),
        lineage(tree, lineage_within(tree, target, n)->0[k]).len() == k + 1,
        lineage_within(tree, target, lineage_within(tree, target, n)->0.len())
            == lineage_within(tree, target, n),
    decreases n,
{
    let whole = lineage_within(tree, target, n)->0;
    match tree[target].parent {
        Some(p) => {
            let rest = lineage_within(tree, p as int, (n - 1) as nat)->0;
            assert(rest.len() > 0) by {
                lemma_lineage_not_empty(tree, p as int, (n - 1) as nat);
            }
            lemma_lineage_prefix(tree, p as int, (n - 1) as nat, if k < rest.len() { k } else { 0 });
            if k == rest.len() {
                assert(whole[k] == target);
                lemma_lineage(tree, target, n);
            } else {
                assert(whole[k] == rest[k]);
            }
        },
        None => {
            lemma_lineage(tree, target, n);
        },
    }
}

/// A lineage ends with the event itself.
proof fn lemma_lineage_not_empty(tree: Seq<Callsite>, target: int, n: nat)
    requires
        lineage_within(tree, target, n) is Some,
    ensures
        lineage_within(tree, target, n)->0.len() > 0,
    decreases n,
{
    if let Some(p) = tree[target].parent {
        lemma_lineage_not_empty(tree, p as int, (n - 1) as nat);
    }
}

/// A lineage is no longer than the tree has events.
proof fn lemma_lineage_is_short(tree: Seq<Callsite>, target: int)
    requires
        rooted(tree, target),
    ensures
        lineage_within(tree, target, tree.len()) is Some,
{
    let n = choose|n: nat| #[trigger] lineage_within(tree, target, n) is Some;
    let whole = lineage_within(tree, target, n)->0;
    assert forall|k: int| 0 <= k < whole.len() implies 0 <= #[trigger] whole[k] < tree.len()
        && lineage(tree, whole[k]).len() == k + 1 by {
        lemma_lineage_prefix(tree, target, n, k);
    }
    assert(whole.no_duplicates());
    lemma_lineage_not_empty(tree, target, n);
    lemma_lineage_prefix(tree, target, n, 0);
    let events = whole.to_set();
    let all = vstd::set_lib::set_int_range(0, tree.len() as int);
    whole.unique_seq_to_set();
    vstd::set_lib::lemma_int_range(0, tree.len() as int);
    assert(events.subset_of(all)) by {
        assert forall|i: int| events.contains(i) implies all.contains(i) by {
            let k = choose|k: int| 0 <= k < whole.len() && whole[k] == i;
            assert(0 <= whole[k] < tree.len());
        }
    }
    vstd::set_lib::lemma_len_subset(events, all);
    assert(whole.len() <= tree.len());
    lemma_lineage_more(tree, target, whole.len(), tree.len());
}

/// A larger bound suffices too.
pub proof fn lemma_lineage_more(tree: Seq<Callsite>, target: int, m: nat, n: nat)
    requires
        lineage_within(tree, target, m) is Some,
        m <= n,
    ensures
        lineage_within(tree, target, n) is Some,
    decreases m,
{
    if let Some(p) = tree[target].parent {
        lemma_lineage_more(tree, p as int, (m - 1) as nat, (n - 1) as nat);
    }
}

/// Whether following the parents from the event at `target` comes to an end.
fn is_rooted(tree: &[Callsite], target: usize) -> (yes: bool)
    ensures
        yes == rooted(tree@, target as int),
{
    let mut at: usize = target;
    let mut left: usize = tree.len();
    loop
        invariant
            left <= tree@.len(),
            lineage_within(tree@, target as int, tree@.len()) is Some <==> lineage_within(
                tree@,
                at as int,
                left as nat,
            ) is Some,
        decreases left,
    {
        if left == 0 || at >= tree.len() {
            proof {
                if rooted(tree@, target as int) {
                    lemma_lineage_is_short(tree@, target as int);
                }
            }
            return false;
        }
        left -= 1;
        match tree[at].parent {
            Some(p) => {
                at = p;
            },
            None => {
                return true;
            },
        }
    }
}

/// Whether no sum of times is out of range.
fn is_in_range(stack: &[Callsite]) -> (yes: bool)
    requires
        forall|i: int|
            0 <= i < stack@.len() ==> ((#[trigger] stack@[i]).parent matches Some(p) ==> p
                < stack@.len()),
    ensures
        yes == in_range(stack@),
{
    let mut times: Vec<u128> = vec![0; stack.len()];
    let mut k: usize = 0;
    while k < stack.len()
        invariant
            k <= stack@.len(),
            times@.len() == stack@.len(),
            forall|i: int|
                0 <= i < stack@.len() ==> ((#[trigger] stack@[i]).parent matches Some(p) ==> p
                    < stack@.len()),
            forall|i: int|
                0 <= i < stack@.len() ==> (#[trigger] times@[i]) == shadow_among(
                    stack@,
                    i,
                    k as nat,
                ),
        decreases stack@.len() - k,
    {
        if let Some(p) = stack[k].parent {
            let time: u128 = match stack[k].end {
                Some(end) => end.as_micros(),
                None => 0,
            };
            if time > u128::MAX - times[p] {
                proof {
                    lemma_shadow_grows(stack@, p as int, k as nat + 1, stack@.len());
                    assert(shadow(stack@, p as int) > u128::MAX);
                }
                return false;
            }
            times[p] = times[p] + time;
        }
        k += 1;
    }
    assert forall|i: int| 0 <= i < stack@.len() implies #[trigger] shadow(stack@, i)
        <= u128::MAX by {
        assert(times@[i] == shadow(stack@, i));
    }
    true
}

/// Whether each event is the descendant of a root, and no sum of times is out of range.
pub fn is_chartable(stack: &[Callsite]) -> (yes: bool)
    ensures
        yes == chartable(stack@),
{
    let len = stack.len();
    let mut k: usize = 0;
    while k < len
        invariant
            k <= len,
            len == stack@.len(),
            forall|i: int| 0 <= i < k ==> #[trigger] rooted(stack@, i),
        decreases len - k,
    {
        if !is_rooted(stack, k) {
            return false;
        }
        k += 1;
    }
    proof {
        lemma_parents_exist(stack@);
    }
    is_in_range(stack)
}

/// Whether the event at `i` is the one at `top` or one of its descendants, so that its path goes
/// through `top`.
pub open spec fn descends(stack: Seq<Callsite>, top: int, i: int) -> bool {
    lineage(stack, i).contains(top)
}

/// The times that are written for those of the first `n` events whose paths go through `top`,
/// together.
pub open spec fn counts_below(stack: Seq<Callsite>, top: int, n: nat) -> nat
    decreases n,
{
    if n == 0 {
        0
    } else {
        counts_below(stack, top, (n - 1) as nat) + if descends(stack, top, n - 1) {
            charted_micros(stack, n - 1)
        } else {
            0
        }
    }
}

/// The times of those of the first `n` events that are descendants of `top`.
spec fn micros_below(stack: Seq<Callsite>, top: int, n: nat) -> nat
    decreases n,
{
    if n == 0 {
        0
    } else {
        micros_below(stack, top, (n - 1) as nat) + if n - 1 != top && descends(stack, top, n - 1) {
            micros_of(stack[n - 1])
        } else {
            0
        }
    }
}

/// The times of those of the first `m` events whose paths go through `top`.
spec fn micros_within(stack: Seq<Callsite>, top: int, m: nat) -> nat
    decreases m,
{
    if m == 0 {
        0
    } else {
        micros_within(stack, top, (m - 1) as nat) + if descends(stack, top, m - 1) {
            micros_of(stack[m - 1])
        } else {
            0
        }
    }
}

/// The times of the children, among the first `n` events, of those of the first `m` events whose
/// paths go through `top`.
spec fn shadow_within(stack: Seq<Callsite>, top: int, m: nat, n: nat) -> nat
    decreases m,
{
    if m == 0 {
        0
    } else {
        shadow_within(stack, top, (m - 1) as nat, n) + if descends(stack, top, m - 1) {
            shadow_among(stack, m - 1, n)
        } else {
            0
        }
    }
}

/// The path of an event goes through `top` if the event is `top`, or if its parent's path does.
proof fn lemma_descends(stack: Seq<Callsite>, top: int, i: int)
    requires
        rooted(stack, i),
    ensures
        descends(stack, top, i) == (i == top || (stack[i].parent matches Some(p) && descends(
            stack,
            top,
            p as int,
        ))),
        stack[i].parent matches Some(p) ==> rooted(stack, p as int) && !descends(
            stack,
            i,
            p as int,
        ),
{
    let n = choose|n: nat| #[trigger] lineage_within(stack, i, n) is Some;
    lemma_lineage(stack, i, n);
    let whole = lineage(stack, i);
    match stack[i].parent {
        Some(p) => {
            assert(lineage_within(stack, p as int, (n - 1) as nat) is Some);
            lemma_lineage(stack, p as int, (n - 1) as nat);
            let rest = lineage(stack, p as int);
            assert(whole == rest.push(i));
            assert(whole[rest.len() as int] == i);
            if rest.contains(top) {
                assert(whole[rest.index_of(top)] == top);
            }
            if rest.contains(i) {
                let k = rest.index_of(i);
                lemma_lineage_prefix(stack, p as int, (n - 1) as nat, k);
            }
        },
        None => {
            assert(whole == seq![i]);
            assert(whole[0] == i);
        },
    }
}

/// One more event counts once among the children of the first `m` events whose paths go through
/// `top`, if its parent is one of them.
proof fn lemma_shadow_within_grows(stack: Seq<Callsite>, top: int, m: nat, n: nat)
    requires
        0 < n <= stack.len(),
    ensures
        shadow_within(stack, top, m, n) == shadow_within(stack, top, m, (n - 1) as nat) + if stack[n
            - 1].parent matches Some(p) && p < m && descends(stack, top, p as int) {
            micros_of(stack[n - 1])
        } else {
            0
        },
    decreases m,
{
    if m > 0 {
        lemma_shadow_within_grows(stack, top, (m - 1) as nat, n);
    }
}

/// Among no events there are no children.
proof fn lemma_shadow_within_none(stack: Seq<Callsite>, top: int, m: nat)
    ensures
        shadow_within(stack, top, m, 0) == 0,
    decreases m,
{
    if m > 0 {
        lemma_shadow_within_none(stack, top, (m - 1) as nat);
    }
}

/// Every descendant of `top` counts once among the children of the events whose paths go through
/// `top`.
proof fn lemma_shadow_within(stack: Seq<Callsite>, top: int, n: nat)
    requires
        forall|i: int| 0 <= i < stack.len() ==> #[trigger] rooted(stack, i),
        n <= stack.len(),
    ensures
        shadow_within(stack, top, stack.len(), n) == micros_below(stack, top, n),
    decreases n,
{
    if n == 0 {
        lemma_shadow_within_none(stack, top, stack.len());
    } else {
        lemma_shadow_within(stack, top, (n - 1) as nat);
        lemma_shadow_within_grows(stack, top, stack.len(), n);
        assert(rooted(stack, n - 1));
        lemma_descends(stack, top, n - 1);
        lemma_parents_exist(stack);
    }
}

/// What is written is the time of the events without that of their children.
proof fn lemma_counts(stack: Seq<Callsite>, top: int, m: nat)
    requires
        m <= stack.len(),
        forall|i: int|
            0 <= i < stack.len() && descends(stack, top, i) ==> #[trigger] shadow(stack, i)
                <= micros_of(stack[i]),
    ensures
        counts_below(stack, top, m) + shadow_within(stack, top, m, stack.len()) == micros_within(
            stack,
            top,
            m,
        ),
    decreases m,
{
    if m > 0 {
        lemma_counts(stack, top, (m - 1) as nat);
        if descends(stack, top, m - 1) {
            assert(shadow(stack, m - 1) <= micros_of(stack[m - 1]));
        }
    }
}

/// The events whose paths go through `top` are `top` and its descendants.
proof fn lemma_within(stack: Seq<Callsite>, top: int, m: nat)
    requires
        0 <= top < stack.len(),
        descends(stack, top, top),
        m <= stack.len(),
    ensures
        micros_within(stack, top, m) == micros_below(stack, top, m) + if top < m {
            micros_of(stack[top])
        } else {
            0
        },
    decreases m,
{
    if m > 0 {
        lemma_within(stack, top, (m - 1) as nat);
    }
}

/// No time is lost or counted twice: the times that are written on all the lines whose paths go
/// through an event add up to the time of that event, if at that event and below it no span took
/// less time than the spans of its children.
pub proof fn law_counts_add_up(stack: Seq<Callsite>, top: int)
    requires
        forall|i: int| 0 <= i < stack.len() ==> #[trigger] rooted(stack, i),
        0 <= top < stack.len(),
        forall|i: int|
            0 <= i < stack.len() && descends(stack, top, i) ==> #[trigger] shadow(stack, i)
                <= micros_of(stack[i]),
    ensures
        counts_below(stack, top, stack.len()) == micros_of(stack[top]),
{
    assert(rooted(stack, top));
    lemma_descends(stack, top, top);
    lemma_counts(stack, top, stack.len());
    lemma_shadow_within(stack, top, stack.len());
    lemma_within(stack, top, stack.len());
}

/// Whether `line[k]` is an event whose parent comes just before it in `line`; the first one has
/// none.
pub open spec fn comes_next(tree: Seq<Callsite>, line: Seq<int>, k: int) -> bool {
    &&& 0 <= line[k] < tree.len()
    &&& tree[line[k]].parent == if k == 0 {
        None
    } else {
        Some(line[k - 1] as usize)
    }
}

/// Whether `line` leads from a root, always from parent to child, to the event at `target`.
pub open spec fn leads_to(tree: Seq<Callsite>, line: Seq<int>, target: int) -> bool {
    &&& line.len() > 0
    &&& line.last() == target
    &&& forall|k: int| 0 <= k < line.len() ==> #[trigger] comes_next(tree, line, k)
}

/// What leads to an event is its lineage.
proof fn lemma_leads_to(tree: Seq<Callsite>, line: Seq<int>, target: int)
    requires
        tree.len() <= usize::MAX,
        leads_to(tree, line, target),
    ensures
        lineage_within(tree, target, line.len()) == Some(line),
    decreases line.len(),
{
    let last = line.len() - 1;
    assert(comes_next(tree, line, last));
    if last == 0 {
        assert(line =~= seq![target]);
    } else {
        let rest = line.drop_last();
        assert forall|k: int| 0 <= k < rest.len() implies #[trigger] comes_next(tree, rest, k) by {
            assert(comes_next(tree, line, k));
        }
        assert(comes_next(tree, line, last - 1));
        lemma_leads_to(tree, rest, line[last - 1]);
        assert(rest.push(target) =~= line);
    }
}

/// Following the parents from an event comes to an end if something leads to it from a root, and
/// only then.
pub proof fn law_rooted_events_can_be_led_to(tree: Seq<Callsite>, target: int)
    requires
        tree.len() <= usize::MAX,
    ensures
        rooted(tree, target) <==> exists|line: Seq<int>| #[trigger] leads_to(tree, line, target),
{
    if rooted(tree, target) {
        let n = choose|n: nat| #[trigger] lineage_within(tree, target, n) is Some;
        lemma_lineage_leads(tree, target, n);
    }
    if exists|line: Seq<int>| #[trigger] leads_to(tree, line, target) {
        let line = choose|line: Seq<int>| #[trigger] leads_to(tree, line, target);
        lemma_leads_to(tree, line, target);
    }
}

/// A lineage leads to its event.
proof fn lemma_lineage_leads(tree: Seq<Callsite>, target: int, n: nat)
    requires
        lineage_within(tree, target, n) is Some,
    ensures
        leads_to(tree, lineage_within(tree, target, n)->0, target),
    decreases n,
{
    let line = lineage_within(tree, target, n)->0;
    match tree[target].parent {
        Some(p) => {
            let rest = lineage_within(tree, p as int, (n - 1) as nat)->0;
            lemma_lineage_leads(tree, p as int, (n - 1) as nat);
            assert(line == rest.push(target));
            assert forall|k: int| 0 <= k < line.len() implies #[trigger] comes_next(tree, line, k) by {
                if k < rest.len() {
                    assert(comes_next(tree, rest, k));
                }
            }
        },
        None => {
            assert(comes_next(tree, line, 0));
        },
    }
}

/// Where a span is, and which one, given its number in digits.
pub open spec fn spelled(site: Callsite, digits: Seq<char>) -> Seq<char> {
    site.name@ + ":"@ + site.loc@ + "`"@ + digits
}

/// The path of an event names all the spans from the outermost one to its own, in this order and
/// none else, each by its name, its place and its full number.
pub proof fn law_a_path_names_all_spans_around(
    tree: Seq<Callsite>,
    target: int,
    line: Seq<int>,
    numbers: Seq<Seq<char>>,
)
    requires
        tree.len() <= usize::MAX,
        leads_to(tree, line, target),
        numbers.len() == line.len(),
        forall|k: int| 0 <= k < line.len() ==> numeral(#[trigger] numbers[k], line[k] as nat),
    ensures
        path_text(tree, target) == interleaved(
            Seq::new(line.len(), |k: int| spelled(tree[line[k]], numbers[k])),
            ";"@,
        ).flatten(),
{
    lemma_leads_to(tree, line, target);
    lemma_lineage(tree, target, line.len());
    let frames = line.map_values(|i: int| frame(tree, i));
    let pieces = Seq::new(line.len(), |k: int| spelled(tree[line[k]], numbers[k]));
    assert forall|k: int| 0 <= k < line.len() implies frames[k] == #[trigger] pieces[k] by {
        assert(comes_next(tree, line, k));
        law_decimal_reads_back(line[k] as nat);
        assert(numeral(numbers[k], line[k] as nat));
        law_numerals_are_unique(numbers[k], decimal(line[k] as nat), line[k] as nat);
    }
    assert(frames =~= pieces);
    law_joining_writes_all(frames, ";"@);
}

/// What is joined ends with the last item.
proof fn lemma_joined_ends(items: Seq<Seq<char>>, separator: Seq<char>)
    requires
        items.len() > 0,
    ensures
        joined(items, separator).len() >= items.last().len(),
        joined(items, separator).skip(joined(items, separator).len() - items.last().len())
            == items.last(),
{
    let text = joined(items, separator);
    assert(text.skip(text.len() - items.last().len()) =~= items.last());
}

/// The path of an event ends with a backquote and the full number of the event, so that it can be
/// read back from there.
pub proof fn law_a_path_ends_with_the_number(tree: Seq<Callsite>, target: int)
    requires
        rooted(tree, target),
    ensures
        exists|at: int|
            0 <= at < path_text(tree, target).len() && path_text(tree, target)[at] == '`' && numeral(
                #[trigger] path_text(tree, target).skip(at + 1),
                target as nat,
            ),
{
    let n = choose|n: nat| #[trigger] lineage_within(tree, target, n) is Some;
    lemma_lineage(tree, target, n);
    lemma_lineage_leads(tree, target, n);
    let frames = lineage(tree, target).map_values(|i: int| frame(tree, i));
    let text = path_text(tree, target);
    lemma_joined_ends(frames, ";"@);
    let digits = decimal(target as nat);
    law_decimal_reads_back(target as nat);
    reveal_strlit("`");
    let own = frame(tree, target);
    assert(frames.last() == own);
    assert(own[own.len() - digits.len() - 1] == '`');
    assert(own.skip(own.len() - digits.len()) =~= digits);
    let at = text.len() - digits.len() - 1;
    let tail = text.skip(text.len() - own.len());
    assert(tail == own);
    assert(tail[own.len() - digits.len() - 1] == text[at]);
    assert(text.skip(at + 1) =~= own.skip(own.len() - digits.len()));
}

/// No two events have the same path, so that each of many calls is shown separately.
pub proof fn law_paths_are_distinct(tree: Seq<Callsite>, i: int, j: int)
    requires
        rooted(tree, i),
        rooted(tree, j),
        i != j,
    ensures
        path_text(tree, i) != path_text(tree, j),
{
    law_a_path_ends_with_the_number(tree, i);
    law_a_path_ends_with_the_number(tree, j);
    let m = choose|m: nat| #[trigger] lineage_within(tree, i, m) is Some;
    let n = choose|n: nat| #[trigger] lineage_within(tree, j, n) is Some;
    assert(0 <= i && 0 <= j);
    let text = path_text(tree, i);
    if text == path_text(tree, j) {
        let a = choose|at: int|
            0 <= at < text.len() && text[at] == '`' && numeral(
                #[trigger] text.skip(at + 1),
                i as nat,
            );
        let b = choose|at: int|
            0 <= at < text.len() && text[at] == '`' && numeral(
                #[trigger] text.skip(at + 1),
                j as nat,
            );
        if a < b {
            assert(text.skip(a + 1)[b - a - 1] == text[b]);
        } else if b < a {
            assert(text.skip(b + 1)[a - b - 1] == text[a]);
        }
    }
}

/// The whole microseconds of the spans in `sites` that are over.
pub open spec fn whole_micros(sites: Seq<Callsite>) -> Seq<nat> {
    sites.map_values(
        |site: Callsite| match site.end {
            Some(length) => length.nanos as nat / 1000,
            None => 0,
        },
    )
}

/// Some times together.
pub open spec fn together(times: Seq<nat>) -> nat {
    times.fold_left(0, |sum: nat, time: nat| sum + time)
}

/// The events whose parent is the one at `parent`.
pub open spec fn children_of(stack: Seq<Callsite>, parent: int) -> Seq<Callsite> {
    stack.filter(|site: Callsite| site.parent == Some(parent as usize))
}

/// The time of the children among the first events is that of those of them that have the parent.
proof fn lemma_shadow_is_together(stack: Seq<Callsite>, parent: int, n: nat)
    requires
        0 <= parent <= usize::MAX,
        n <= stack.len(),
    ensures
        shadow_among(stack, parent, n) == together(
            whole_micros(children_of(stack.take(n as int), parent)),
        ),
    decreases n,
{
    reveal(Seq::filter);
    let taken = stack.take(n as int);
    let mine = children_of(taken, parent);
    if n == 0 {
        assert(mine.len() == 0);
    } else {
        let rest = stack.take(n - 1);
        lemma_shadow_is_together(stack, parent, (n - 1) as nat);
        assert(taken.drop_last() =~= rest);
        let before = children_of(rest, parent);
        let site = stack[n - 1];
        assert(taken.last() == site);
        if site.parent == Some(parent as usize) {
            assert(mine == before.push(site));
            assert(whole_micros(mine).drop_last() =~= whole_micros(before));
        } else {
            assert(mine == before);
        }
    }
}

/// What is written on the line of an event: its path, and the whole microseconds of its span that
/// lie outside the spans of all its children; none if these took longer. The line ends there.
pub proof fn law_a_line_tells_the_time_of_its_own(
    stack: Seq<Callsite>,
    i: int,
    digits: Seq<char>,
    micros: nat,
)
    requires
        stack.len() <= usize::MAX,
        0 <= i < stack.len(),
        numeral(digits, micros),
        ({
            let all = whole_micros(stack)[i];
            let inner = together(whole_micros(children_of(stack, i)));
            if inner <= all {
                micros + inner == all
            } else {
                micros == 0
            }
        }),
    ensures
        chart_line(stack, i) == path_text(stack, i) + " "@ + digits + "\n"@,
{
    lemma_shadow_is_together(stack, i, stack.len());
    assert(stack.take(stack.len() as int) =~= stack);
    law_decimal_reads_back(micros);
    law_numerals_are_unique(digits, decimal(micros), micros);
    assert(charted_micros(stack, i) == micros);
}

/// Whether the event at `i` can be led to from a root, and the times of its children are together
/// in range.
pub open spec fn drawable(stack: Seq<Callsite>, i: int) -> bool {
    &&& exists|line: Seq<int>| #[trigger] leads_to(stack, line, i)
    &&& together(whole_micros(children_of(stack, i))) <= u128::MAX
}

/// Events can be made into a chart if each of them can be led to from a root, and the times of the
/// children of none of them are together out of range; and only then.
pub proof fn law_charts_need_roots_and_range(stack: Seq<Callsite>)
    requires
        stack.len() <= usize::MAX,
    ensures
        chartable(stack) <==> forall|i: int| 0 <= i < stack.len() ==> #[trigger] drawable(stack, i),
{
    assert forall|i: int| 0 <= i < stack.len() implies #[trigger] drawable(stack, i) == (rooted(
        stack,
        i,
    ) && shadow(stack, i) <= u128::MAX) by {
        law_rooted_events_can_be_led_to(stack, i);
        lemma_shadow_is_together(stack, i, stack.len());
        assert(stack.take(stack.len() as int) =~= stack);
    }
    if chartable(stack) {
        assert forall|i: int| 0 <= i < stack.len() implies #[trigger] drawable(stack, i) by {
            assert(rooted(stack, i) && shadow(stack, i) <= u128::MAX);
        }
    }
    if forall|i: int| 0 <= i < stack.len() ==> #[trigger] drawable(stack, i) {
        assert forall|i: int| 0 <= i < stack.len() implies #[trigger] rooted(stack, i) by {
            assert(drawable(stack, i));
        }
        assert forall|i: int| 0 <= i < stack.len() implies #[trigger] shadow(stack, i) <= u128::MAX by {
            assert(drawable(stack, i));
        }
    }
}

} // verus!
