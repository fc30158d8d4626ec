//! Finding the schedule of a graph: nodes that wait for nothing stand in line,
//! and each node that runs tells its readers.

use std::collections::VecDeque;
use vstd::prelude::*;

use crate::order::{NodeHandle, all_in, deps_in_range, due_before, edges, is_acyclic, is_schedule, is_topological, lemma_all_in_take, lemma_distinct, lemma_push_new, lemma_ready_bounds, lemma_ready_extend, lemma_ready_member, lemma_ready_within, lemma_run_all, lemma_subset_len, ready};

verus! {

/// How many entries of `wanted` do not occur in `done`.
spec fn pending(wanted: Seq<NodeHandle>, done: Seq<NodeHandle>) -> nat
    decreases wanted.len(),
{
    if wanted.len() == 0 {
        0
    } else {
        pending(wanted.drop_last(), done) + if done.contains(wanted.last()) {
            0nat
        } else {
            1nat
        }
    }
}

/// How often `h` occurs in `list`.
spec fn occurrences(list: Seq<NodeHandle>, h: NodeHandle) -> nat
    decreases list.len(),
{
    if list.len() == 0 {
        0
    } else {
        occurrences(list.drop_last(), h) + if list.last() == h {
            1nat
        } else {
            0nat
        }
    }
}

proof fn lemma_pending_zero(wanted: Seq<NodeHandle>, done: Seq<NodeHandle>)
    ensures
        pending(wanted, done) == 0 <==> all_in(wanted, done),
    decreases wanted.len(),
{
    if wanted.len() > 0 {
        let rest = wanted.drop_last();
        lemma_pending_zero(rest, done);
        if all_in(wanted, done) {
            assert forall|j: int| 0 <= j < rest.len() implies done.contains(#[trigger] rest[j]) by {
                assert(rest[j] == wanted[j]);
            }
            assert(done.contains(wanted[wanted.len() - 1]));
        }
        if pending(wanted, done) == 0 {
            assert forall|j: int| 0 <= j < wanted.len() implies done.contains(
                #[trigger] wanted[j],
            ) by {
                if j < rest.len() {
                    assert(rest[j] == wanted[j]);
                }
            }
        }
    }
}

proof fn lemma_pending_nothing_done(wanted: Seq<NodeHandle>)
    ensures
        pending(wanted, Seq::empty()) == wanted.len(),
    decreases wanted.len(),
{
    if wanted.len() > 0 {
        lemma_pending_nothing_done(wanted.drop_last());
    }
}

proof fn lemma_pending_after(wanted: Seq<NodeHandle>, done: Seq<NodeHandle>, h: NodeHandle)
    requires
        !done.contains(h),
    ensures
        pending(wanted, done) == pending(wanted, done.push(h)) + occurrences(wanted, h),
    decreases wanted.len(),
{
    if wanted.len() > 0 {
        lemma_pending_after(wanted.drop_last(), done, h);
        let x = wanted.last();
        let more = done.push(h);
        assert(more.contains(x) <==> done.contains(x) || x == h) by {
            assert(more[more.len() - 1] == h);
            if done.contains(x) {
                let k = choose|k: int| 0 <= k < done.len() && done[k] == x;
                assert(more[k] == x);
            }
        }
    }
}

proof fn lemma_occurrences_push(list: Seq<NodeHandle>, x: NodeHandle, h: NodeHandle)
    ensures
        occurrences(list.push(x), h) == occurrences(list, h) + if x == h {
            1nat
        } else {
            0nat
        },
{
    assert(list.push(x).drop_last() =~= list);
}

proof fn lemma_occurrences_skip(list: Seq<NodeHandle>, h: NodeHandle)
    requires
        list.len() > 0,
    ensures
        occurrences(list, h) == occurrences(list.skip(1), h) + if list[0] == h {
            1nat
        } else {
            0nat
        },
    decreases list.len(),
{
    if list.len() == 1 {
        assert(occurrences(list.drop_last(), h) == 0);
        assert(occurrences(list.skip(1), h) == 0);
    } else {
        lemma_occurrences_skip(list.drop_last(), h);
        assert(list.drop_last().skip(1) =~= list.skip(1).drop_last());
        assert(list.skip(1).last() == list.last());
        assert(list.drop_last()[0] == list[0]);
    }
}

proof fn lemma_occurs(list: Seq<NodeHandle>, h: NodeHandle)
    ensures
        occurrences(list, h) > 0 <==> list.contains(h),
    decreases list.len(),
{
    if list.len() > 0 {
        let rest = list.drop_last();
        lemma_occurs(rest, h);
        if rest.contains(h) {
            let k = choose|k: int| 0 <= k < rest.len() && rest[k] == h;
            assert(list[k] == h);
        }
        if list.contains(h) && list.last() != h {
            let k = choose|k: int| 0 <= k < list.len() && list[k] == h;
            assert(rest[k] == h);
        }
        if list.last() == h {
            assert(list[list.len() - 1] == h);
        }
    }
}

/// `readers[d]` lists the nodes that read `d`, once per time they read it and
/// in the order of the list of nodes.
spec fn is_reversal(
    deps: Seq<Seq<NodeHandle>>,
    readers: Seq<Vec<NodeHandle>>,
) -> bool {
    &&& readers.len() == deps.len()
    &&& forall|d: int, c: int|
        0 <= d < readers.len() && 0 <= c < readers[d]@.len() ==> (#[trigger] readers[d]@[c]).0
            < deps.len()
    &&& forall|d: int, a: int, b: int|
        0 <= d < readers.len() && 0 <= a <= b < readers[d]@.len() ==> (#[trigger] readers[d]@[a]).0
            <= (#[trigger] readers[d]@[b]).0
    &&& forall|d: NodeHandle, x: NodeHandle|
        d.0 < readers.len() && x.0 < deps.len() ==> #[trigger] occurrences(
            readers[d.0 as int]@,
            x,
        ) == occurrences(deps[x.0 as int], d)
}

/// How often `x` was recorded as a reader of `d`, once the dependencies of the
/// nodes before `at` and the first `part` ones of node `at` have been recorded.
spec fn recorded(
    deps: Seq<Seq<NodeHandle>>,
    at: int,
    part: int,
    d: NodeHandle,
    x: NodeHandle,
) -> nat {
    if x.0 < at {
        occurrences(deps[x.0 as int], d)
    } else if x.0 == at {
        occurrences(deps[at].take(part), d)
    } else {
        0
    }
}

fn reverse_edges(deps: &Vec<Vec<NodeHandle>>) -> (readers: Vec<Vec<NodeHandle>>)
    requires
        deps_in_range(edges(deps@)),
    ensures
        is_reversal(edges(deps@), readers@),
{
    let ghost lists = edges(deps@);
    let count = deps.len();
    let mut readers: Vec<Vec<NodeHandle>> = Vec::new();
    let mut fresh: usize = 0;
    while fresh < count
        invariant
            fresh <= count,
            readers@.len() == fresh,
            forall|d: int| 0 <= d < fresh ==> (#[trigger] readers@[d])@.len() == 0,
        decreases count - fresh,
    {
        readers.push(Vec::new());
        fresh += 1;
    }
    let mut at: usize = 0;
    while at < count
        invariant
            at <= count,
            count == deps@.len(),
            lists == edges(deps@),
            deps_in_range(lists),
            readers@.len() == count,
            forall|d: int, c: int|
                0 <= d < count && 0 <= c < readers@[d]@.len() ==> (#[trigger] readers@[d]@[c]).0
                    < at,
            forall|d: int, a: int, b: int|
                0 <= d < count && 0 <= a <= b < readers@[d]@.len() ==> (
                #[trigger] readers@[d]@[a]).0 <= (#[trigger] readers@[d]@[b]).0,
            forall|d: NodeHandle, x: NodeHandle|
                d.0 < count && x.0 < count ==> #[trigger] occurrences(readers@[d.0 as int]@, x)
                    == recorded(lists, at as int, 0, d, x),
        decreases count - at,
    {
        let reader = NodeHandle(at);
        let list = &deps[at];
        let list_len = list.len();
        let mut part: usize = 0;
        while part < list_len
            invariant
                at < count,
                count == deps@.len(),
                reader == NodeHandle(at),
                lists == edges(deps@),
                deps_in_range(lists),
                list@ == lists[at as int],
                list_len == list@.len(),
                part <= list_len,
                readers@.len() == count,
                forall|d: int, c: int|
                    0 <= d < count && 0 <= c < readers@[d]@.len() ==> (
                    #[trigger] readers@[d]@[c]).0 <= at,
                forall|d: int, a: int, b: int|
                    0 <= d < count && 0 <= a <= b < readers@[d]@.len() ==> (
                    #[trigger] readers@[d]@[a]).0 <= (#[trigger] readers@[d]@[b]).0,
                forall|d: NodeHandle, x: NodeHandle|
                    d.0 < count && x.0 < count ==> #[trigger] occurrences(readers@[d.0 as int]@, x)
                        == recorded(lists, at as int, part as int, d, x),
            decreases list_len - part,
        {
            let dep = list[part];
            let ghost before = readers@;
            assert(lists[at as int][part as int].0 < count);
            readers[dep.index()].push(reader);
            proof {
                assert(readers@[dep.0 as int]@ == before[dep.0 as int]@.push(reader));
                assert forall|d: NodeHandle, x: NodeHandle|
                    d.0 < count && x.0 < count implies #[trigger] occurrences(
                    readers@[d.0 as int]@,
                    x,
                ) == recorded(lists, at as int, part + 1, d, x) by {
                    assert(occurrences(before[d.0 as int]@, x) == recorded(
                        lists,
                        at as int,
                        part as int,
                        d,
                        x,
                    ));
                    assert(list@.take(part + 1) =~= list@.take(part as int).push(dep));
                    lemma_occurrences_push(list@.take(part as int), dep, d);
                    if d == dep {
                        lemma_occurrences_push(before[d.0 as int]@, reader, x);
                    } else {
                        assert(readers@[d.0 as int] == before[d.0 as int]);
                    }
                }
            }
            part += 1;
        }
        proof {
            assert(list@.take(list_len as int) =~= list@);
            assert forall|d: NodeHandle, x: NodeHandle|
                d.0 < count && x.0 < count implies #[trigger] occurrences(readers@[d.0 as int]@, x)
                == recorded(lists, at + 1, 0, d, x) by {
                assert(lists[x.0 as int].take(0).len() == 0);
            }
        }
        at += 1;
    }
    readers
}

/// The nodes put in line so far, in `line`, are in the order of the schedule,
/// and each waits for nothing but the first `run` of them.
spec fn line_is_sound(deps: Seq<Seq<NodeHandle>>, line: Seq<NodeHandle>, run: int) -> bool {
    &&& 0 <= run <= line.len()
    &&& line.no_duplicates()
    &&& forall|i: int| 0 <= i < line.len() ==> (#[trigger] line[i]).0 < deps.len()
    &&& forall|i: int|
        0 <= i < line.len() ==> all_in(deps[(#[trigger] line[i]).0 as int], line.take(run))
    &&& forall|i: int|
        0 <= i < line.len() ==> ready(deps[(#[trigger] line[i]).0 as int], line) <= i
    &&& forall|i: int, j: int|
        0 <= i < j < line.len() ==> due_before(deps, line, #[trigger] line[i], #[trigger] line[j])
}

/// Puts `x` at the end of the line, where it is ready after `run` steps and the
/// ones before it were ready earlier, or then too but come earlier in the list.
proof fn lemma_join_line(
    deps: Seq<Seq<NodeHandle>>,
    line: Seq<NodeHandle>,
    run: int,
    x: NodeHandle,
)
    requires
        line_is_sound(deps, line, run),
        x.0 < deps.len(),
        !line.contains(x),
        all_in(deps[x.0 as int], line.take(run)),
        ready(deps[x.0 as int], line) == run,
        forall|i: int|
            0 <= i < line.len() ==> ready(deps[(#[trigger] line[i]).0 as int], line) < run
                || line[i].0 < x.0,
    ensures
        line_is_sound(deps, line.push(x), run),
        ready(deps[x.0 as int], line.push(x)) == run,
        forall|i: int|
            0 <= i < line.len() ==> ready(deps[(#[trigger] line[i]).0 as int], line.push(x))
                == ready(deps[line[i].0 as int], line),
{
    let longer = line.push(x);
    assert(longer.take(line.len() as int) =~= line);
    assert(longer.take(run) =~= line.take(run));
    lemma_push_new(line, x);
    lemma_all_in_take(deps[x.0 as int], line, run);
    lemma_ready_extend(deps[x.0 as int], line, longer);
    assert forall|i: int| 0 <= i < line.len() implies ready(
        deps[(#[trigger] line[i]).0 as int],
        longer,
    ) == ready(deps[line[i].0 as int], line) by {
        lemma_all_in_take(deps[line[i].0 as int], line, run);
        lemma_ready_extend(deps[line[i].0 as int], line, longer);
    }
    assert forall|i: int| 0 <= i < longer.len() implies ready(
        deps[(#[trigger] longer[i]).0 as int],
        longer,
    ) <= i by {
        if i < line.len() {
            assert(longer[i] == line[i]);
        }
    }
    assert forall|i: int| 0 <= i < longer.len() implies all_in(
        deps[(#[trigger] longer[i]).0 as int],
        longer.take(run),
    ) by {
        if i < line.len() {
            assert(longer[i] == line[i]);
        }
    }
    assert forall|i: int, j: int| 0 <= i < j < longer.len() implies due_before(
        deps,
        longer,
        #[trigger] longer[i],
        #[trigger] longer[j],
    ) by {
        assert(longer[i] == line[i]);
        lemma_ready_bounds(deps[line[i].0 as int], line, run);
        if j < line.len() {
            assert(longer[j] == line[j]);
            assert(due_before(deps, line, line[i], line[j]));
        }
    }
}

/// Running one more of the line keeps it sound; the ones in it were all ready.
proof fn lemma_run_one_more(deps: Seq<Seq<NodeHandle>>, line: Seq<NodeHandle>, run: int)
    requires
        line_is_sound(deps, line, run),
        run < line.len(),
    ensures
        line_is_sound(deps, line, run + 1),
        forall|i: int|
            0 <= i < line.len() ==> ready(deps[(#[trigger] line[i]).0 as int], line) <= run,
{
    assert forall|i: int| 0 <= i < line.len() implies all_in(
        deps[(#[trigger] line[i]).0 as int],
        line.take(run + 1),
    ) && ready(deps[line[i].0 as int], line) <= run by {
        let wanted = deps[line[i].0 as int];
        lemma_ready_bounds(wanted, line, run);
        assert(line.take(run) =~= line.take(run + 1).take(run));
        lemma_all_in_take(wanted, line.take(run + 1), run);
    }
}

/// `children` lists the readers of `handle`, once per time they read it, in the
/// order of the list of nodes.
spec fn are_readers(
    deps: Seq<Seq<NodeHandle>>,
    handle: NodeHandle,
    children: Seq<NodeHandle>,
) -> bool {
    &&& forall|c: int| 0 <= c < children.len() ==> (#[trigger] children[c]).0 < deps.len()
    &&& forall|a: int, b: int|
        0 <= a <= b < children.len() ==> (#[trigger] children[a]).0 <= (#[trigger] children[b]).0
    &&& forall|x: NodeHandle|
        x.0 < deps.len() ==> #[trigger] occurrences(children, x) == occurrences(
            deps[x.0 as int],
            handle,
        )
}

proof fn lemma_reversal_at(
    deps: Seq<Seq<NodeHandle>>,
    readers: Seq<Vec<NodeHandle>>,
    handle: NodeHandle,
)
    requires
        is_reversal(deps, readers),
        handle.0 < deps.len(),
    ensures
        are_readers(deps, handle, readers[handle.0 as int]@),
{
    let children = readers[handle.0 as int]@;
    assert forall|x: NodeHandle| x.0 < deps.len() implies #[trigger] occurrences(children, x)
        == occurrences(deps[x.0 as int], handle) by {
        assert(occurrences(readers[handle.0 as int]@, x) == occurrences(
            deps[x.0 as int],
            handle,
        ));
    }
}

/// While `handle`, the `run`-th of the line, tells its readers that it has run:
/// `rest` are the readers still to be told, `start` nodes were in line before,
/// `waiting` counts for each node what it still waits for.
#[verifier::opaque]
spec fn serving(
    deps: Seq<Seq<NodeHandle>>,
    start: int,
    run: int,
    handle: NodeHandle,
    rest: Seq<NodeHandle>,
    line: Seq<NodeHandle>,
    waiting: Seq<usize>,
) -> bool {
    &&& 0 <= run < start <= line.len()
    &&& line[run] == handle
    &&& waiting.len() == deps.len()
    &&& line_is_sound(deps, line, run + 1)
    &&& forall|x: NodeHandle|
        x.0 < deps.len() ==> #[trigger] waiting[x.0 as int] == pending(
            deps[x.0 as int],
            line.take(run + 1),
        ) + occurrences(rest, x)
    &&& forall|x: NodeHandle|
        x.0 < deps.len() ==> (#[trigger] line.contains(x) <==> waiting[x.0 as int] == 0)
    &&& forall|i: int|
        0 <= i < start ==> ready(deps[(#[trigger] line[i]).0 as int], line) <= run
    &&& forall|i: int, k: int|
        start <= i < line.len() && 0 <= k < rest.len() ==> (#[trigger] line[i]).0 <= (
        #[trigger] rest[k]).0
}

/// Between two nodes that run: `line` are the nodes put in line so far, `run` of
/// which have run; `waiting` counts for each node what it still waits for.
#[verifier::opaque]
spec fn standing(
    deps: Seq<Seq<NodeHandle>>,
    line: Seq<NodeHandle>,
    run: int,
    waiting: Seq<usize>,
) -> bool {
    &&& waiting.len() == deps.len()
    &&& line_is_sound(deps, line, run)
    &&& forall|x: NodeHandle|
        x.0 < deps.len() ==> #[trigger] waiting[x.0 as int] == pending(
            deps[x.0 as int],
            line.take(run),
        )
    &&& forall|x: NodeHandle|
        x.0 < deps.len() ==> (#[trigger] line.contains(x) <==> waiting[x.0 as int] == 0)
}

proof fn lemma_standing_begins(
    deps: Seq<Seq<NodeHandle>>,
    line: Seq<NodeHandle>,
    waiting: Seq<usize>,
)
    requires
        waiting.len() == deps.len(),
        line_is_sound(deps, line, 0),
        forall|x: int| 0 <= x < deps.len() ==> #[trigger] waiting[x] == deps[x].len(),
        forall|i: int| 0 <= i < line.len() ==> deps[(#[trigger] line[i]).0 as int].len() == 0,
        forall|x: NodeHandle|
            x.0 < deps.len() && deps[x.0 as int].len() == 0 ==> #[trigger] line.contains(x),
    ensures
        standing(deps, line, 0, waiting),
{
    reveal(standing);
    assert(line.take(0) =~= Seq::<NodeHandle>::empty());
    assert forall|x: NodeHandle| x.0 < deps.len() implies #[trigger] waiting[x.0 as int] == pending(
        deps[x.0 as int],
        line.take(0),
    ) by {
        lemma_pending_nothing_done(deps[x.0 as int]);
    }
}

proof fn lemma_standing_fits(
    deps: Seq<Seq<NodeHandle>>,
    line: Seq<NodeHandle>,
    run: int,
    waiting: Seq<usize>,
)
    requires
        standing(deps, line, run, waiting),
    ensures
        line.len() <= deps.len(),
        forall|i: int| 0 <= i < line.len() ==> (#[trigger] line[i]).0 < deps.len(),
{
    reveal(standing);
    lemma_distinct(deps.len(), line);
}

proof fn lemma_serving_begins(
    deps: Seq<Seq<NodeHandle>>,
    line: Seq<NodeHandle>,
    run: int,
    children: Seq<NodeHandle>,
    waiting: Seq<usize>,
)
    requires
        0 <= run < line.len(),
        standing(deps, line, run, waiting),
        are_readers(deps, line[run], children),
    ensures
        serving(deps, line.len() as int, run, line[run], children, line, waiting),
{
    reveal(standing);
    reveal(serving);
    let ran = line.take(run);
    let handle = line[run];
    assert(line.take(run + 1) =~= ran.push(handle));
    lemma_run_one_more(deps, line, run);
    if ran.contains(handle) {
        let k = choose|k: int| 0 <= k < ran.len() && ran[k] == handle;
        assert(line[k] == line[run]);
    }
    assert forall|x: NodeHandle| x.0 < deps.len() implies #[trigger] waiting[x.0 as int] == pending(
        deps[x.0 as int],
        line.take(run + 1),
    ) + occurrences(children, x) by {
        lemma_pending_after(deps[x.0 as int], ran, handle);
    }
}

proof fn lemma_serving_ends(
    deps: Seq<Seq<NodeHandle>>,
    start: int,
    run: int,
    handle: NodeHandle,
    rest: Seq<NodeHandle>,
    line: Seq<NodeHandle>,
    waiting: Seq<usize>,
)
    requires
        serving(deps, start, run, handle, rest, line, waiting),
        rest.len() == 0,
    ensures
        standing(deps, line, run + 1, waiting),
{
    reveal(standing);
    reveal(serving);
    assert forall|x: NodeHandle| x.0 < deps.len() implies #[trigger] waiting[x.0 as int] == pending(
        deps[x.0 as int],
        line.take(run + 1),
    ) by {
        assert(occurrences(rest, x) == 0);
    }
}

/// Once the whole line has run, it is the schedule, or there is a cycle.
proof fn lemma_all_have_run(
    deps: Seq<Seq<NodeHandle>>,
    line: Seq<NodeHandle>,
    waiting: Seq<usize>,
)
    requires
        standing(deps, line, line.len() as int, waiting),
    ensures
        line.len() == deps.len() ==> is_schedule(deps, line),
        line.len() != deps.len() ==> !is_acyclic(deps),
{
    reveal(standing);
    assert(line.take(line.len() as int) =~= line);
    lemma_distinct(deps.len(), line);
    if line.len() == deps.len() {
        assert forall|i: int| 0 <= i < line.len() implies all_in(
            deps[(#[trigger] line[i]).0 as int],
            line.take(i),
        ) by {
            lemma_ready_within(deps[line[i].0 as int], line, i);
        }
    } else if is_acyclic(deps) {
        let order = choose|order: Seq<NodeHandle>| is_topological(deps, order);
        assert forall|x: NodeHandle|
            x.0 < deps.len() && all_in(deps[x.0 as int], line) implies #[trigger] line.contains(
            x,
        ) by {
            lemma_pending_zero(deps[x.0 as int], line);
            assert(waiting[x.0 as int] == 0);
        }
        assert forall|i: int| 0 <= i < order.len() implies line.contains(#[trigger] order[i]) by {
            lemma_run_all(deps, order, line, i);
        }
        lemma_subset_len(deps.len(), order, line);
    }
}

/// The next reader to be told still waits.
proof fn lemma_served_is_waiting(
    deps: Seq<Seq<NodeHandle>>,
    start: int,
    run: int,
    handle: NodeHandle,
    rest: Seq<NodeHandle>,
    line: Seq<NodeHandle>,
    waiting: Seq<usize>,
)
    requires
        serving(deps, start, run, handle, rest, line, waiting),
        rest.len() > 0,
        rest[0].0 < deps.len(),
    ensures
        waiting.len() == deps.len(),
        waiting[rest[0].0 as int] >= 1,
{
    reveal(serving);
    lemma_occurrences_skip(rest, rest[0]);
}

/// Tells the reader `children[c]`: it waits for one less, and joins the line
/// where it waits for nothing more.
#[verifier::spinoff_prover]
proof fn lemma_serve(
    deps: Seq<Seq<NodeHandle>>,
    start: int,
    run: int,
    handle: NodeHandle,
    children: Seq<NodeHandle>,
    c: int,
    line: Seq<NodeHandle>,
    waiting: Seq<usize>,
)
    requires
        are_readers(deps, handle, children),
        0 <= c < children.len(),
        serving(deps, start, run, handle, children.skip(c), line, waiting),
        waiting[children[c].0 as int] >= 1,
    ensures
        ({
            let child = children[c];
            let left = (waiting[child.0 as int] - 1) as usize;
            serving(
                deps,
                start,
                run,
                handle,
                children.skip(c + 1),
                if left == 0 {
                    line.push(child)
                } else {
                    line
                },
                waiting.update(child.0 as int, left),
            )
        }),
{
    reveal(serving);
    let child = children[c];
    let left = (waiting[child.0 as int] - 1) as usize;
    let rest = children.skip(c);
    let after = waiting.update(child.0 as int, left);
    let longer = if left == 0 {
        line.push(child)
    } else {
        line
    };
    assert(rest.skip(1) =~= children.skip(c + 1));
    assert(rest[0] == child);
    assert(longer.take(run + 1) =~= line.take(run + 1));
    assert(waiting[child.0 as int] == pending(deps[child.0 as int], line.take(run + 1))
        + occurrences(rest, child));
    lemma_occurrences_skip(rest, child);
    assert forall|x: NodeHandle| x.0 < deps.len() implies #[trigger] after[x.0 as int] == pending(
        deps[x.0 as int],
        longer.take(run + 1),
    ) + occurrences(children.skip(c + 1), x) by {
        assert(waiting[x.0 as int] == pending(deps[x.0 as int], line.take(run + 1)) + occurrences(
            rest,
            x,
        ));
        lemma_occurrences_skip(rest, x);
        if x.0 == child.0 {
            assert(x == child);
        }
    }
    if left == 0 {
        assert(!line.contains(child));
        lemma_pending_zero(deps[child.0 as int], line.take(run + 1));
        lemma_occurs(children, child);
        lemma_occurs(deps[child.0 as int], handle);
        assert(occurrences(children, child) == occurrences(deps[child.0 as int], handle));
        lemma_ready_member(deps[child.0 as int], line, run);
        lemma_ready_bounds(deps[child.0 as int], line, run + 1);
        assert forall|i: int| 0 <= i < line.len() implies ready(
            deps[(#[trigger] line[i]).0 as int],
            line,
        ) < run + 1 || line[i].0 < child.0 by {
            if i >= start {
                assert(line[i].0 <= rest[0].0);
                assert(line.contains(line[i]));
            }
        }
        lemma_join_line(deps, line, run + 1, child);
    }
    assert forall|x: NodeHandle| x.0 < deps.len() implies (#[trigger] longer.contains(x)
        <==> after[x.0 as int] == 0) by {
        assert(line.contains(x) <==> waiting[x.0 as int] == 0);
        if left == 0 {
            assert(longer[line.len() as int] == child);
            if line.contains(x) {
                let k = choose|k: int| 0 <= k < line.len() && line[k] == x;
                assert(longer[k] == x);
            }
        }
        if x.0 == child.0 {
            assert(x == child);
        }
    }
    assert forall|i: int| 0 <= i < start implies ready(deps[(#[trigger] longer[i]).0 as int], longer)
        <= run by {
        assert(longer[i] == line[i]);
    }
    assert forall|i: int, k: int|
        start <= i < longer.len() && 0 <= k < children.skip(c + 1).len() implies (
    #[trigger] longer[i]).0 <= (#[trigger] children.skip(c + 1)[k]).0 by {
        assert(children.skip(c + 1)[k] == children[c + 1 + k]);
        if i < line.len() {
            assert(longer[i] == line[i]);
            assert(rest[k + 1] == children[c + 1 + k]);
        } else {
            assert(longer[i] == child);
        }
    }
}

/// The schedule of a graph; `None` where the graph has a cycle.
pub fn schedule(deps: &Vec<Vec<NodeHandle>>) -> (order: Option<Vec<NodeHandle>>)
    requires
        deps_in_range(edges(deps@)),
    ensures
        match order {
            Some(order) => is_schedule(edges(deps@), order@),
            None => !is_acyclic(edges(deps@)),
        },
{
    let ghost lists = edges(deps@);
    let count = deps.len();
    let readers = reverse_edges(deps);
    let mut waiting: Vec<usize> = Vec::new();
    let mut queue: VecDeque<NodeHandle> = VecDeque::new();
    let mut at: usize = 0;
    while at < count
        invariant
            at <= count,
            count == deps@.len(),
            lists == edges(deps@),
            waiting@.len() == at,
            forall|x: int| 0 <= x < at ==> #[trigger] waiting@[x] == lists[x].len(),
            line_is_sound(lists, queue@, 0),
            forall|i: int| 0 <= i < queue@.len() ==> (#[trigger] queue@[i]).0 < at,
            forall|i: int|
                0 <= i < queue@.len() ==> lists[(#[trigger] queue@[i]).0 as int].len() == 0,
            forall|x: NodeHandle|
                x.0 < at && lists[x.0 as int].len() == 0 ==> #[trigger] queue@.contains(x),
        decreases count - at,
    {
        let reads = deps[at].len();
        waiting.push(reads);
        if reads == 0 {
            let ghost line = queue@;
            let handle = NodeHandle(at);
            proof {
                if line.contains(handle) {
                    let k = choose|k: int| 0 <= k < line.len() && line[k] == handle;
                    assert(line[k].0 < at);
                }
                lemma_join_line(lists, line, 0, handle);
            }
            queue.push_back(handle);
            proof {
                assert forall|x: NodeHandle|
                    x.0 <= at && lists[x.0 as int].len() == 0 implies #[trigger] queue@.contains(
                    x,
                ) by {
                    if x.0 < at {
                        assert(line.contains(x));
                        let k = choose|k: int| 0 <= k < line.len() && line[k] == x;
                        assert(queue@[k] == x);
                    } else {
                        assert(queue@[line.len() as int] == x);
                    }
                }
            }
        }
        at += 1;
    }

    let mut sorted: Vec<NodeHandle> = Vec::new();
    proof {
        lemma_standing_begins(lists, queue@, waiting@);
        assert(sorted@ + queue@ =~= queue@);
    }
    while queue.len() > 0
        invariant
            count == lists.len(),
            is_reversal(lists, readers@),
            waiting@.len() == count,
            standing(lists, sorted@ + queue@, sorted@.len() as int, waiting@),
        decreases count - sorted@.len(),
    {
        let ghost line = sorted@ + queue@;
        let ghost run = sorted@.len() as int;
        proof {
            lemma_standing_fits(lists, line, run, waiting@);
        }
        if let Some(handle) = queue.pop_front() {
            assert(handle == line[run]);
            sorted.push(handle);
            assert(sorted@ + queue@ =~= line);
            assert(sorted@ =~= line.take(run + 1));
            let children = &readers[handle.index()];
            let child_count = children.len();
            proof {
                assert(children@.skip(0) =~= children@);
                lemma_reversal_at(lists, readers@, handle);
                lemma_serving_begins(lists, line, run, children@, waiting@);
            }
            let mut c: usize = 0;
            while c < child_count
                invariant
                    c <= child_count,
                    child_count == children@.len(),
                    count == lists.len(),
                    sorted@ == line.take(run + 1),
                    0 <= run < line.len(),
                    waiting@.len() == count,
                    handle == line[run],
                    are_readers(lists, handle, children@),
                    serving(
                        lists,
                        line.len() as int,
                        run,
                        handle,
                        children@.skip(c as int),
                        sorted@ + queue@,
                        waiting@,
                    ),
                decreases child_count - c,
            {
                let ghost seen = sorted@ + queue@;
                let ghost before = waiting@;
                let ghost start = line.len() as int;
                let child = children[c];
                proof {
                    let rest = children@.skip(c as int);
                    assert(rest[0] == child);
                    assert(child.0 < lists.len());
                    lemma_served_is_waiting(lists, start, run, handle, rest, seen, before);
                    lemma_serve(lists, start, run, handle, children@, c as int, seen, before);
                }
                let left: usize = waiting[child.index()] - 1;
                waiting.set(child.index(), left);
                if left == 0 {
                    queue.push_back(child);
                    assert(sorted@ + queue@ =~= seen.push(child));
                }
                c += 1;
            }
            proof {
                lemma_serving_ends(
                    lists,
                    line.len() as int,
                    run,
                    handle,
                    children@.skip(c as int),
                    sorted@ + queue@,
                    waiting@,
                );
            }
        }
    }

    proof {
        assert(sorted@ + queue@ =~= sorted@);
        lemma_all_have_run(lists, sorted@, waiting@);
    }
    if sorted.len() != count {
        return None;
    }
    Some(sorted)
}

} // verus!
