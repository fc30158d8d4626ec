//! Orders in which the nodes of a graph can run, and the one that it runs in.
//!
//! A graph is given by its dependency lists: `deps[x]` names the nodes that
//! node `x` reads, with repetitions where a node is read more than once.

use vstd::prelude::*;

verus! {

/// A node, by its place in the list of nodes of a graph.
#[derive(Clone, Copy, Debug, PartialEq, Eq, Hash, Structural)]
pub struct NodeHandle(pub usize);

impl NodeHandle {
    pub fn index(self) -> (index: usize)
        ensures
            index == self.0,
    {
        self.0
    }
}

/// The dependency lists as a sequence of sequences.
pub open spec fn edges(deps: Seq<Vec<NodeHandle>>) -> Seq<Seq<NodeHandle>> {
    deps.map_values(|list: Vec<NodeHandle>| list@)
}

/// Every dependency is a node of the graph.
pub open spec fn deps_in_range(deps: Seq<Seq<NodeHandle>>) -> bool {
    forall|x: int, j: int|
        0 <= x < deps.len() && 0 <= j < deps[x].len() ==> (#[trigger] deps[x][j]).0 < deps.len()
}

/// Every entry of `wanted` occurs in `done`.
pub open spec fn all_in(wanted: Seq<NodeHandle>, done: Seq<NodeHandle>) -> bool {
    forall|j: int| 0 <= j < wanted.len() ==> done.contains(#[trigger] wanted[j])
}

/// `order` lists each of `count` nodes once.
pub open spec fn lists_each_once(count: nat, order: Seq<NodeHandle>) -> bool {
    &&& order.len() == count
    &&& order.no_duplicates()
    &&& forall|i: int| 0 <= i < order.len() ==> (#[trigger] order[i]).0 < count
    &&& forall|h: NodeHandle| h.0 < count ==> #[trigger] order.contains(h)
}

/// `order` lists each node once, after everything that it depends on.
pub open spec fn is_topological(deps: Seq<Seq<NodeHandle>>, order: Seq<NodeHandle>) -> bool {
    &&& lists_each_once(deps.len(), order)
    &&& forall|i: int|
        0 <= i < order.len() ==> all_in(deps[(#[trigger] order[i]).0 as int], order.take(i))
}

/// Some order runs every node after what it depends on: the graph has no cycle.
pub open spec fn is_acyclic(deps: Seq<Seq<NodeHandle>>) -> bool {
    exists|order: Seq<NodeHandle>| is_topological(deps, order)
}

/// How many entries of `order` have to run before all of `wanted` has.
pub open spec fn ready(wanted: Seq<NodeHandle>, order: Seq<NodeHandle>) -> int
    decreases wanted.len(),
{
    if wanted.len() == 0 {
        0
    } else {
        let before = ready(wanted.drop_last(), order);
        let last = order.index_of(wanted.last()) + 1;
        if before < last {
            last
        } else {
            before
        }
    }
}

/// `a` is due before `b`: it is ready earlier or, where both become ready at the
/// same time, it comes earlier in the list of nodes.
pub open spec fn due_before(
    deps: Seq<Seq<NodeHandle>>,
    order: Seq<NodeHandle>,
    a: NodeHandle,
    b: NodeHandle,
) -> bool {
    let ready_a = ready(deps[a.0 as int], order);
    let ready_b = ready(deps[b.0 as int], order);
    ready_a < ready_b || (ready_a == ready_b && a.0 < b.0)
}

/// `order` is the schedule of the graph: a topological order in which nodes run
/// first come, first served.
pub open spec fn is_schedule(deps: Seq<Seq<NodeHandle>>, order: Seq<NodeHandle>) -> bool {
    &&& is_topological(deps, order)
    &&& forall|i: int, j: int|
        0 <= i < j < order.len() ==> due_before(deps, order, #[trigger] order[i], #[trigger] order[j])
}

pub(crate) proof fn lemma_index(order: Seq<NodeHandle>, i: int)
    requires
        order.no_duplicates(),
        0 <= i < order.len(),
    ensures
        order.index_of(order[i]) == i,
{
    let k = order.index_of(order[i]);
    assert(order[k] == order[i]);
}

/// What has run within the first `k` steps is ready within `k` steps.
pub(crate) proof fn lemma_ready_bounds(wanted: Seq<NodeHandle>, order: Seq<NodeHandle>, k: int)
    requires
        order.no_duplicates(),
        0 <= k <= order.len(),
        all_in(wanted, order.take(k)),
    ensures
        0 <= ready(wanted, order) <= k,
    decreases wanted.len(),
{
    if wanted.len() > 0 {
        let rest = wanted.drop_last();
        assert forall|j: int| 0 <= j < rest.len() implies order.take(k).contains(
            #[trigger] rest[j],
        ) by {
            assert(rest[j] == wanted[j]);
        }
        lemma_ready_bounds(rest, order, k);
        assert(order.take(k).contains(wanted[wanted.len() - 1]));
        let m = choose|m: int| 0 <= m < k && order.take(k)[m] == wanted.last();
        assert(order[m] == wanted.last());
        lemma_index(order, m);
    }
}

/// What is ready within `k` steps has run within the first `k` steps.
pub(crate) proof fn lemma_ready_within(wanted: Seq<NodeHandle>, order: Seq<NodeHandle>, k: int)
    requires
        order.no_duplicates(),
        all_in(wanted, order),
        ready(wanted, order) <= k <= order.len(),
    ensures
        all_in(wanted, order.take(k)),
    decreases wanted.len(),
{
    if wanted.len() > 0 {
        let rest = wanted.drop_last();
        assert forall|j: int| 0 <= j < rest.len() implies order.contains(#[trigger] rest[j]) by {
            assert(rest[j] == wanted[j]);
        }
        lemma_ready_within(rest, order, k);
        assert(order.contains(wanted[wanted.len() - 1]));
        let m = choose|m: int| 0 <= m < order.len() && order[m] == wanted.last();
        lemma_index(order, m);
        assert(order.take(k)[m] == wanted.last());
        assert forall|j: int| 0 <= j < wanted.len() implies order.take(k).contains(
            #[trigger] wanted[j],
        ) by {
            if j < rest.len() {
                assert(rest[j] == wanted[j]);
            }
        }
    }
}

/// Steps added at the end do not change when something became ready.
pub(crate) proof fn lemma_ready_extend(
    wanted: Seq<NodeHandle>,
    order: Seq<NodeHandle>,
    longer: Seq<NodeHandle>,
)
    requires
        longer.no_duplicates(),
        order.len() <= longer.len(),
        order == longer.take(order.len() as int),
        all_in(wanted, order),
    ensures
        ready(wanted, longer) == ready(wanted, order),
    decreases wanted.len(),
{
    if wanted.len() > 0 {
        let rest = wanted.drop_last();
        assert forall|j: int| 0 <= j < rest.len() implies order.contains(#[trigger] rest[j]) by {
            assert(rest[j] == wanted[j]);
        }
        lemma_ready_extend(rest, order, longer);
        assert(order.contains(wanted[wanted.len() - 1]));
        let m = choose|m: int| 0 <= m < order.len() && order[m] == wanted.last();
        assert(longer[m] == wanted.last());
        assert(order.no_duplicates());
        lemma_index(order, m);
        lemma_index(longer, m);
    }
}

/// Nothing is ready before each of its entries has run.
pub(crate) proof fn lemma_ready_member(wanted: Seq<NodeHandle>, order: Seq<NodeHandle>, m: int)
    requires
        order.no_duplicates(),
        0 <= m < order.len(),
        wanted.contains(order[m]),
    ensures
        ready(wanted, order) >= m + 1,
    decreases wanted.len(),
{
    let j = choose|j: int| 0 <= j < wanted.len() && wanted[j] == order[m];
    lemma_index(order, m);
    if j < wanted.len() - 1 {
        let rest = wanted.drop_last();
        assert(rest[j] == order[m]);
        lemma_ready_member(rest, order, m);
    }
}

/// Distinct nodes out of `count` are at most `count` many, and all of them
/// where they are that many.
pub(crate) proof fn lemma_distinct(count: nat, order: Seq<NodeHandle>)
    requires
        order.no_duplicates(),
        forall|i: int| 0 <= i < order.len() ==> (#[trigger] order[i]).0 < count,
    ensures
        order.len() <= count,
        order.len() == count ==> lists_each_once(count, order),
    decreases count,
{
    if count == 0 {
        if order.len() > 0 {
            assert(order[0].0 < count);
        }
    } else {
        let below = (count - 1) as nat;
        if exists|k: int| 0 <= k < order.len() && (#[trigger] order[k]).0 == below {
            let k = choose|k: int| 0 <= k < order.len() && (#[trigger] order[k]).0 == below;
            let rest = order.remove(k);
            assert forall|i: int| 0 <= i < rest.len() implies (#[trigger] rest[i]).0 < below by {
                let o = if i < k {
                    i
                } else {
                    i + 1
                };
                assert(rest[i] == order[o]);
                assert(order[o] != order[k]);
            }
            assert(rest.no_duplicates());
            lemma_distinct(below, rest);
            if order.len() == count {
                assert forall|h: NodeHandle| h.0 < count implies #[trigger] order.contains(h) by {
                    if h.0 == below {
                        assert(order[k] == h);
                    } else {
                        assert(rest.contains(h));
                        let i = choose|i: int| 0 <= i < rest.len() && rest[i] == h;
                        let o = if i < k {
                            i
                        } else {
                            i + 1
                        };
                        assert(order[o] == h);
                    }
                }
            }
        } else {
            assert forall|i: int| 0 <= i < order.len() implies (#[trigger] order[i]).0 < below by {
                assert(order[i].0 != below);
            }
            lemma_distinct(below, order);
        }
    }
}

pub(crate) proof fn lemma_all_in_take(wanted: Seq<NodeHandle>, line: Seq<NodeHandle>, k: int)
    requires
        0 <= k <= line.len(),
        all_in(wanted, line.take(k)),
    ensures
        all_in(wanted, line),
{
    assert forall|j: int| 0 <= j < wanted.len() implies line.contains(#[trigger] wanted[j]) by {
        let m = choose|m: int| 0 <= m < k && line.take(k)[m] == wanted[j];
        assert(line[m] == wanted[j]);
    }
}

pub(crate) proof fn lemma_push_new(line: Seq<NodeHandle>, x: NodeHandle)
    requires
        line.no_duplicates(),
        !line.contains(x),
    ensures
        line.push(x).no_duplicates(),
{
    let longer = line.push(x);
    assert forall|i: int, j: int| 0 <= i < longer.len() && 0 <= j < longer.len() && i
        != j implies longer[i] != longer[j] by {
        if i < line.len() && j < line.len() {
            assert(line[i] != line[j]);
        } else if i < line.len() {
            assert(line.contains(line[i]));
        } else {
            assert(line.contains(line[j]));
        }
    }
}

/// A list that holds every entry of an order of `count` nodes holds `count`
/// nodes at least.
pub(crate) proof fn lemma_subset_len(count: nat, order: Seq<NodeHandle>, line: Seq<NodeHandle>)
    requires
        lists_each_once(count, order),
        forall|i: int| 0 <= i < order.len() ==> line.contains(#[trigger] order[i]),
    ensures
        line.len() >= count,
{
    order.unique_seq_to_set();
    assert(order.to_set().subset_of(line.to_set())) by {
        assert forall|h: NodeHandle| order.to_set().contains(h) implies line.to_set().contains(
            h,
        ) by {
            let i = choose|i: int| 0 <= i < order.len() && order[i] == h;
            assert(line.contains(order[i]));
        }
    }
    line.lemma_cardinality_of_set();
    vstd::set_lib::lemma_len_subset(order.to_set(), line.to_set());
}

/// What comes at step `k` of one order comes later in another one that agrees
/// with it up to there and differs there.
proof fn lemma_found_later(a: Seq<NodeHandle>, b: Seq<NodeHandle>, k: int) -> (i: int)
    requires
        b.no_duplicates(),
        0 <= k < a.len(),
        0 <= k < b.len(),
        a.take(k) == b.take(k),
        a[k] != b[k],
        a.contains(b[k]),
    ensures
        k < i < a.len(),
        a[i] == b[k],
{
    let i = choose|i: int| 0 <= i < a.len() && a[i] == b[k];
    if i < k {
        assert(a.take(k)[i] == a[i]);
        assert(b.take(k)[i] == b[i]);
    }
    i
}

/// Two schedules of a graph that agree up to step `k` agree on step `k`.
#[verifier::spinoff_prover]
proof fn lemma_next_step_is_fixed(
    deps: Seq<Seq<NodeHandle>>,
    a: Seq<NodeHandle>,
    b: Seq<NodeHandle>,
    k: int,
)
    requires
        is_schedule(deps, a),
        is_schedule(deps, b),
        0 <= k < deps.len(),
        a.take(k) == b.take(k),
    ensures
        a[k] == b[k],
{
    let x = a[k];
    let y = b[k];
    if x != y {
        assert(a.contains(y));
        assert(b.contains(x));
        let i = lemma_found_later(a, b, k);
        let j = lemma_found_later(b, a, k);
        assert(due_before(deps, a, a[k], a[i]));
        assert(due_before(deps, b, b[k], b[j]));
        let run = a.take(k);
        assert(all_in(deps[x.0 as int], run));
        assert(all_in(deps[y.0 as int], run));
        lemma_ready_extend(deps[x.0 as int], run, a);
        lemma_ready_extend(deps[x.0 as int], run, b);
        lemma_ready_extend(deps[y.0 as int], run, a);
        lemma_ready_extend(deps[y.0 as int], run, b);
    }
}

proof fn lemma_schedules_agree(
    deps: Seq<Seq<NodeHandle>>,
    a: Seq<NodeHandle>,
    b: Seq<NodeHandle>,
    k: int,
)
    requires
        is_schedule(deps, a),
        is_schedule(deps, b),
        0 <= k <= deps.len(),
    ensures
        a.take(k) == b.take(k),
    decreases k,
{
    if k > 0 {
        lemma_schedules_agree(deps, a, b, k - 1);
        lemma_next_step_is_fixed(deps, a, b, k - 1);
        assert(a.take(k) =~= a.take(k - 1).push(a[k - 1]));
        assert(b.take(k) =~= b.take(k - 1).push(b[k - 1]));
    } else {
        assert(a.take(0) =~= b.take(0));
    }
}

/// A graph has one schedule at most.
pub proof fn law_schedule_is_unique(
    deps: Seq<Seq<NodeHandle>>,
    a: Seq<NodeHandle>,
    b: Seq<NodeHandle>,
)
    requires
        is_schedule(deps, a),
        is_schedule(deps, b),
    ensures
        a == b,
{
    lemma_schedules_agree(deps, a, b, deps.len() as int);
    assert(a.take(deps.len() as int) =~= a);
    assert(b.take(deps.len() as int) =~= b);
}

/// `path` follows dependencies: each node on it reads the next one.
pub open spec fn is_path(deps: Seq<Seq<NodeHandle>>, path: Seq<NodeHandle>) -> bool {
    &&& forall|i: int| 0 <= i < path.len() ==> (#[trigger] path[i]).0 < deps.len()
    &&& forall|i: int|
        0 <= i < path.len() - 1 ==> deps[(#[trigger] path[i]).0 as int].contains(path[i + 1])
}

/// `path` leads from a node back to itself.
pub open spec fn is_cycle(deps: Seq<Seq<NodeHandle>>, path: Seq<NodeHandle>) -> bool {
    &&& is_path(deps, path)
    &&& path.len() >= 2
    &&& path[0] == path[path.len() - 1]
}

proof fn lemma_path_goes_back(
    deps: Seq<Seq<NodeHandle>>,
    order: Seq<NodeHandle>,
    path: Seq<NodeHandle>,
    k: int,
)
    requires
        is_topological(deps, order),
        is_path(deps, path),
        0 <= k < path.len(),
    ensures
        order.index_of(path[k]) <= order.index_of(path[0]) - k,
    decreases k,
{
    if k > 0 {
        lemma_path_goes_back(deps, order, path, k - 1);
        let x = path[k - 1];
        let y = path[k];
        assert(order.contains(x));
        let i = order.index_of(x);
        assert(order[i] == x);
        assert(deps[x.0 as int].contains(path[k - 1 + 1]));
        let j = choose|j: int| 0 <= j < deps[x.0 as int].len() && deps[x.0 as int][j] == y;
        assert(all_in(deps[order[i].0 as int], order.take(i)));
        assert(order.take(i).contains(deps[x.0 as int][j]));
        let m = choose|m: int| 0 <= m < i && order.take(i)[m] == y;
        assert(order[m] == y);
        lemma_index(order, m);
    }
}

/// `done` lists nodes, each once and after everything that it depends on.
spec fn is_partial_order(deps: Seq<Seq<NodeHandle>>, done: Seq<NodeHandle>) -> bool {
    &&& done.no_duplicates()
    &&& forall|i: int| 0 <= i < done.len() ==> (#[trigger] done[i]).0 < deps.len()
    &&& forall|i: int|
        0 <= i < done.len() ==> all_in(deps[(#[trigger] done[i]).0 as int], done.take(i))
}

/// Where every node left over reads another node left over, paths among them
/// can be as long as one likes.
proof fn lemma_endless_path(
    deps: Seq<Seq<NodeHandle>>,
    done: Seq<NodeHandle>,
    start: NodeHandle,
    len: nat,
) -> (path: Seq<NodeHandle>)
    requires
        deps_in_range(deps),
        start.0 < deps.len(),
        !done.contains(start),
        forall|x: NodeHandle|
            x.0 < deps.len() && all_in(deps[x.0 as int], done) ==> #[trigger] done.contains(x),
    ensures
        is_path(deps, path),
        path.len() == len + 1,
        forall|i: int| 0 <= i < path.len() ==> !done.contains(#[trigger] path[i]),
    decreases len,
{
    if len == 0 {
        seq![start]
    } else {
        let path = lemma_endless_path(deps, done, start, (len - 1) as nat);
        let x = path[path.len() - 1];
        assert(!done.contains(x));
        assert(!all_in(deps[x.0 as int], done));
        let j = choose|j: int|
            0 <= j < deps[x.0 as int].len() && !done.contains(#[trigger] deps[x.0 as int][j]);
        let y = deps[x.0 as int][j];
        let longer = path.push(y);
        assert forall|i: int| 0 <= i < longer.len() - 1 implies deps[(
        #[trigger] longer[i]).0 as int].contains(longer[i + 1]) by {
            assert(longer[i] == path[i]);
            if i < path.len() - 1 {
                assert(longer[i + 1] == path[i + 1]);
            }
        }
        longer
    }
}

proof fn lemma_repeated_node_is_cycle(deps: Seq<Seq<NodeHandle>>, path: Seq<NodeHandle>)
    requires
        is_path(deps, path),
        path.len() > deps.len(),
    ensures
        exists|cycle: Seq<NodeHandle>| is_cycle(deps, cycle),
{
    if path.no_duplicates() {
        lemma_distinct(deps.len(), path);
    }
    let (i, j) = choose|i: int, j: int|
        0 <= i < path.len() && 0 <= j < path.len() && i != j && path[i] == path[j];
    let (a, b) = if i < j {
        (i, j)
    } else {
        (j, i)
    };
    let cycle = path.subrange(a, b + 1);
    assert forall|k: int| 0 <= k < cycle.len() - 1 implies deps[(
    #[trigger] cycle[k]).0 as int].contains(cycle[k + 1]) by {
        assert(cycle[k] == path[a + k]);
        assert(cycle[k + 1] == path[a + k + 1]);
    }
    assert forall|k: int| 0 <= k < cycle.len() implies (#[trigger] cycle[k]).0 < deps.len() by {
        assert(cycle[k] == path[a + k]);
    }
    assert(is_cycle(deps, cycle));
}

proof fn lemma_every_node_counts(count: nat, done: Seq<NodeHandle>)
    requires
        count <= usize::MAX,
        forall|x: NodeHandle| x.0 < count ==> #[trigger] done.contains(x),
    ensures
        done.len() >= count,
{
    let all = Seq::new(count, |i: int| NodeHandle(i as usize));
    assert forall|h: NodeHandle| h.0 < count implies #[trigger] all.contains(h) by {
        assert(all[h.0 as int] == h);
    }
    assert(lists_each_once(count, all));
    lemma_subset_len(count, all, done);
}

/// Completes a partial order, or comes upon a cycle.
proof fn lemma_complete(deps: Seq<Seq<NodeHandle>>, done: Seq<NodeHandle>)
    requires
        deps.len() <= usize::MAX,
        deps_in_range(deps),
        is_partial_order(deps, done),
    ensures
        is_acyclic(deps) || exists|cycle: Seq<NodeHandle>| is_cycle(deps, cycle),
    decreases deps.len() - done.len(),
{
    lemma_distinct(deps.len(), done);
    if done.len() == deps.len() {
        assert(is_topological(deps, done));
    } else if exists|x: NodeHandle|
        x.0 < deps.len() && all_in(deps[x.0 as int], done) && !#[trigger] done.contains(x) {
        let x = choose|x: NodeHandle|
            x.0 < deps.len() && all_in(deps[x.0 as int], done) && !#[trigger] done.contains(x);
        let longer = done.push(x);
        lemma_push_new(done, x);
        assert forall|i: int| 0 <= i < longer.len() implies all_in(
            deps[(#[trigger] longer[i]).0 as int],
            longer.take(i),
        ) by {
            if i < done.len() {
                assert(longer[i] == done[i]);
                assert(longer.take(i) =~= done.take(i));
            } else {
                assert(longer.take(i) =~= done);
            }
        }
        lemma_complete(deps, longer);
    } else {
        if forall|x: NodeHandle| x.0 < deps.len() ==> #[trigger] done.contains(x) {
            lemma_every_node_counts(deps.len(), done);
        }
        let start = choose|x: NodeHandle| x.0 < deps.len() && !#[trigger] done.contains(x);
        let path = lemma_endless_path(deps, done, start, deps.len());
        lemma_repeated_node_is_cycle(deps, path);
    }
}

/// A graph can be put in an order that runs every node after what it depends
/// on if and only if no node reaches itself along dependencies.
pub proof fn law_acyclic_means_no_cycle(deps: Seq<Seq<NodeHandle>>)
    requires
        deps.len() <= usize::MAX,
        deps_in_range(deps),
    ensures
        is_acyclic(deps) <==> !exists|cycle: Seq<NodeHandle>| is_cycle(deps, cycle),
{
    if is_acyclic(deps) {
        let order = choose|order: Seq<NodeHandle>| is_topological(deps, order);
        assert forall|cycle: Seq<NodeHandle>| !is_cycle(deps, cycle) by {
            if is_cycle(deps, cycle) {
                lemma_path_goes_back(deps, order, cycle, cycle.len() - 1);
            }
        }
    } else {
        lemma_complete(deps, Seq::empty());
    }
}

/// `done` is the beginning of a schedule: whatever could run next is due after
/// all of it.
spec fn is_schedule_prefix(deps: Seq<Seq<NodeHandle>>, done: Seq<NodeHandle>) -> bool {
    &&& is_partial_order(deps, done)
    &&& forall|i: int, j: int|
        0 <= i < j < done.len() ==> due_before(deps, done, #[trigger] done[i], #[trigger] done[j])
    &&& forall|i: int, x: NodeHandle|
        0 <= i < done.len() && can_run(deps, done, x) ==> #[trigger] due_before(
            deps,
            done,
            done[i],
            x,
        )
}

/// `x` has not run, and everything that it depends on has.
spec fn can_run(deps: Seq<Seq<NodeHandle>>, done: Seq<NodeHandle>, x: NodeHandle) -> bool {
    x.0 < deps.len() && !done.contains(x) && all_in(deps[x.0 as int], done)
}

/// Of the nodes that can run and are not due after `x`, one is due first.
proof fn lemma_first_due(
    deps: Seq<Seq<NodeHandle>>,
    done: Seq<NodeHandle>,
    x: NodeHandle,
) -> (first: NodeHandle)
    requires
        done.no_duplicates(),
        can_run(deps, done, x),
    ensures
        can_run(deps, done, first),
        forall|y: NodeHandle|
            can_run(deps, done, y) && y != first ==> #[trigger] due_before(deps, done, first, y),
    decreases ready(deps[x.0 as int], done), x.0,
{
    if exists|y: NodeHandle| can_run(deps, done, y) && #[trigger] due_before(deps, done, y, x) {
        let y = choose|y: NodeHandle|
            can_run(deps, done, y) && #[trigger] due_before(deps, done, y, x);
        assert(done.take(done.len() as int) =~= done);
        lemma_ready_bounds(deps[y.0 as int], done, done.len() as int);
        lemma_first_due(deps, done, y)
    } else {
        assert forall|y: NodeHandle| can_run(deps, done, y) && y != x implies #[trigger] due_before(
            deps,
            done,
            x,
            y,
        ) by {
            assert(!due_before(deps, done, y, x));
        }
        x
    }
}

#[verifier::spinoff_prover]
proof fn lemma_prefix_extends(
    deps: Seq<Seq<NodeHandle>>,
    done: Seq<NodeHandle>,
    first: NodeHandle,
)
    requires
        is_schedule_prefix(deps, done),
        can_run(deps, done, first),
        forall|y: NodeHandle|
            can_run(deps, done, y) && y != first ==> #[trigger] due_before(deps, done, first, y),
    ensures
        is_schedule_prefix(deps, done.push(first)),
{
    let longer = done.push(first);
    let count = done.len() as int;
    lemma_push_new(done, first);
    assert(longer.take(count) =~= done);
    assert(done.take(count) =~= done);
    assert forall|i: int| 0 <= i < longer.len() implies all_in(
        deps[(#[trigger] longer[i]).0 as int],
        longer.take(i),
    ) by {
        if i < count {
            assert(longer[i] == done[i]);
            assert(longer.take(i) =~= done.take(i));
        }
    }
    assert forall|x: NodeHandle| all_in(#[trigger] deps[x.0 as int], done) implies ready(
        deps[x.0 as int],
        longer,
    ) == ready(deps[x.0 as int], done) && ready(deps[x.0 as int], done) <= count by {
        lemma_ready_extend(deps[x.0 as int], done, longer);
        lemma_ready_bounds(deps[x.0 as int], done, count);
    }
    assert forall|i: int| 0 <= i < count implies all_in(
        deps[(#[trigger] done[i]).0 as int],
        done,
    ) by {
        lemma_all_in_take(deps[done[i].0 as int], done, i);
    }
    assert forall|i: int, j: int| 0 <= i < j < longer.len() implies due_before(
        deps,
        longer,
        #[trigger] longer[i],
        #[trigger] longer[j],
    ) by {
        assert(longer[i] == done[i]);
        assert(all_in(deps[done[i].0 as int], done));
        if j < count {
            assert(longer[j] == done[j]);
            assert(all_in(deps[done[j].0 as int], done));
            assert(due_before(deps, done, done[i], done[j]));
        } else {
            assert(due_before(deps, done, done[i], first));
        }
    }
    assert forall|i: int, x: NodeHandle|
        0 <= i < longer.len() && can_run(deps, longer, x) implies #[trigger] due_before(
        deps,
        longer,
        longer[i],
        x,
    ) by {
        let wanted = deps[x.0 as int];
        assert(all_in(deps[longer[i].0 as int], done)) by {
            if i < count {
                assert(longer[i] == done[i]);
            }
        }
        assert(longer[count] == first);
        if wanted.contains(first) {
            lemma_ready_member(wanted, longer, count);
        } else {
            assert forall|j: int| 0 <= j < wanted.len() implies done.contains(
                #[trigger] wanted[j],
            ) by {
                let m = choose|m: int| 0 <= m < longer.len() && longer[m] == wanted[j];
                assert(wanted.contains(wanted[j]));
                assert(done[m] == wanted[j]);
            }
            assert(!done.contains(x)) by {
                if done.contains(x) {
                    let m = choose|m: int| 0 <= m < done.len() && done[m] == x;
                    assert(longer[m] == x);
                }
            }
            assert(can_run(deps, done, x));
            assert(x != first) by {
                assert(longer.contains(longer[count]));
            }
            if i < count {
                assert(due_before(deps, done, done[i], x));
            } else {
                assert(due_before(deps, done, first, x));
            }
        }
    }
}

proof fn lemma_schedule_exists(
    deps: Seq<Seq<NodeHandle>>,
    order: Seq<NodeHandle>,
    done: Seq<NodeHandle>,
) -> (whole: Seq<NodeHandle>)
    requires
        is_topological(deps, order),
        is_schedule_prefix(deps, done),
    ensures
        is_schedule(deps, whole),
    decreases deps.len() - done.len(),
{
    lemma_distinct(deps.len(), done);
    if done.len() == deps.len() {
        done
    } else {
        if forall|x: NodeHandle| x.0 < deps.len() ==> !can_run(deps, done, x) {
            assert forall|x: NodeHandle|
                x.0 < deps.len() && all_in(deps[x.0 as int], done) implies #[trigger] done.contains(
                x,
            ) by {
                assert(!can_run(deps, done, x));
            }
            assert forall|i: int| 0 <= i < order.len() implies done.contains(#[trigger] order[i]) by {
                lemma_run_all(deps, order, done, i);
            }
            lemma_subset_len(deps.len(), order, done);
        }
        let x = choose|x: NodeHandle| x.0 < deps.len() && can_run(deps, done, x);
        let first = lemma_first_due(deps, done, x);
        lemma_prefix_extends(deps, done, first);
        lemma_schedule_exists(deps, order, done.push(first))
    }
}

/// Where nothing more can run, everything has.
pub(crate) proof fn lemma_run_all(
    deps: Seq<Seq<NodeHandle>>,
    order: Seq<NodeHandle>,
    done: Seq<NodeHandle>,
    i: int,
)
    requires
        is_topological(deps, order),
        0 <= i < order.len(),
        forall|x: NodeHandle|
            x.0 < deps.len() && all_in(deps[x.0 as int], done) ==> #[trigger] done.contains(x),
    ensures
        done.contains(order[i]),
    decreases i,
{
    let wanted = deps[order[i].0 as int];
    assert(all_in(wanted, order.take(i)));
    assert forall|j: int| 0 <= j < wanted.len() implies done.contains(#[trigger] wanted[j]) by {
        let m = choose|m: int| 0 <= m < i && order.take(i)[m] == wanted[j];
        assert(order[m] == wanted[j]);
        lemma_run_all(deps, order, done, m);
    }
    assert(all_in(deps[order[i].0 as int], done));
}

/// A graph has a schedule if and only if it has no cycle.
pub proof fn law_acyclic_has_schedule(deps: Seq<Seq<NodeHandle>>)
    ensures
        is_acyclic(deps) <==> exists|order: Seq<NodeHandle>| is_schedule(deps, order),
{
    if is_acyclic(deps) {
        let order = choose|order: Seq<NodeHandle>| is_topological(deps, order);
        let whole = lemma_schedule_exists(deps, order, Seq::empty());
        assert(is_schedule(deps, whole));
    }
}

/// A node is among the first `steps` of the order.
pub open spec fn ran_by(order: Seq<NodeHandle>, steps: int, node: NodeHandle) -> bool {
    exists|j: int| 0 <= j < steps && j < order.len() && #[trigger] order[j] == node
}

/// Every node in `wanted` is among the first `steps` of the order.
pub open spec fn ran_within(wanted: Seq<NodeHandle>, order: Seq<NodeHandle>, steps: int) -> bool {
    forall|k: int| 0 <= k < wanted.len() ==> ran_by(order, steps, #[trigger] wanted[k])
}

proof fn lemma_ran_within(wanted: Seq<NodeHandle>, order: Seq<NodeHandle>, steps: int)
    requires
        0 <= steps <= order.len(),
    ensures
        ran_within(wanted, order, steps) <==> all_in(wanted, order.take(steps)),
{
    let done = order.take(steps);
    if all_in(wanted, done) {
        assert forall|k: int| 0 <= k < wanted.len() implies ran_by(
            order,
            steps,
            #[trigger] wanted[k],
        ) by {
            assert(done.contains(wanted[k]));
            let j = choose|j: int| 0 <= j < done.len() && done[j] == wanted[k];
            assert(order[j] == wanted[k]);
        }
    }
    if ran_within(wanted, order, steps) {
        assert forall|k: int| 0 <= k < wanted.len() implies done.contains(#[trigger] wanted[k]) by {
            assert(ran_by(order, steps, wanted[k]));
            let j = choose|j: int|
                0 <= j < steps && j < order.len() && #[trigger] order[j] == wanted[k];
            assert(done[j] == wanted[k]);
        }
    }
}

/// A schedule runs every node once, and each after all that it reads.
pub proof fn law_schedule_follows_reads(deps: Seq<Seq<NodeHandle>>, order: Seq<NodeHandle>, i: int)
    requires
        is_schedule(deps, order),
        0 <= i < order.len(),
    ensures
        order.len() == deps.len(),
        order[i].0 < deps.len(),
        forall|j: int| 0 <= j < order.len() && j != i ==> #[trigger] order[j] != order[i],
        ran_within(deps[order[i].0 as int], order, i),
{
    lemma_ran_within(deps[order[i].0 as int], order, i);
}

/// A schedule serves nodes first come, first served: of two nodes, the one that
/// runs first has all that it reads at a step at which the other one has not, or
/// both come to have it at the same step and it stands first in the graph.
pub proof fn law_schedule_is_first_come(
    deps: Seq<Seq<NodeHandle>>,
    order: Seq<NodeHandle>,
    i: int,
    j: int,
)
    requires
        is_schedule(deps, order),
        0 <= i < j < order.len(),
    ensures
        ({
            let first = deps[order[i].0 as int];
            let second = deps[order[j].0 as int];
            ||| exists|steps: int|
                0 <= steps <= order.len() && #[trigger] ran_within(first, order, steps)
                    && !ran_within(second, order, steps)
            ||| order[i].0 < order[j].0 && forall|steps: int|
                0 <= steps <= order.len() ==> (#[trigger] ran_within(first, order, steps)
                    <==> ran_within(second, order, steps))
        }),
{
    let first = deps[order[i].0 as int];
    let second = deps[order[j].0 as int];
    assert(due_before(deps, order, order[i], order[j]));
    lemma_ready_steps(first, order, i);
    lemma_ready_steps(second, order, j);
    if ready(first, order) < ready(second, order) {
        let steps = ready(first, order);
        assert(ran_within(first, order, steps));
        assert(!ran_within(second, order, steps));
    }
}

/// Something is ready at the first step by which all of it has run.
proof fn lemma_ready_steps(wanted: Seq<NodeHandle>, order: Seq<NodeHandle>, k: int)
    requires
        order.no_duplicates(),
        0 <= k <= order.len(),
        all_in(wanted, order.take(k)),
    ensures
        0 <= ready(wanted, order) <= order.len(),
        forall|steps: int|
            0 <= steps <= order.len() ==> (#[trigger] ran_within(wanted, order, steps)
                <==> ready(wanted, order) <= steps),
{
    lemma_ready_bounds(wanted, order, k);
    lemma_all_in_take(wanted, order, k);
    assert forall|steps: int| 0 <= steps <= order.len() implies (#[trigger] ran_within(
        wanted,
        order,
        steps,
    ) <==> ready(wanted, order) <= steps) by {
        lemma_ran_within(wanted, order, steps);
        if ran_within(wanted, order, steps) {
            lemma_ready_bounds(wanted, order, steps);
        }
        if ready(wanted, order) <= steps {
            lemma_ready_within(wanted, order, steps);
        }
    }
}

} // verus!
