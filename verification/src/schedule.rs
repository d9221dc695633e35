//! The reasoning behind the search for an evaluation order: what the
//! search keeps true while it runs, why its result respects the wiring,
//! and why it fails exactly on a cycle.

use vstd::prelude::*;
use vstd::set_lib::{lemma_int_range, lemma_len_subset, lemma_subset_equality, set_int_range};
use crate::graph::{Graph, gather, lemma_gather_agree};
use crate::port::{NodeIndex, Port};

verus! {

/// Number of flags that are not set.
pub open spec fn pending(flags: Seq<bool>) -> nat
    decreases flags.len(),
{
    if flags.len() == 0 {
        0
    } else {
        pending(flags.drop_last()) + if flags.last() {
            0nat
        } else {
            1nat
        }
    }
}

/// Where no flag is set, all are pending.
pub proof fn lemma_pending_fresh(flags: Seq<bool>)
    requires
        forall|k: int| 0 <= k < flags.len() ==> !flags[k],
    ensures
        pending(flags) == flags.len(),
    decreases flags.len(),
{
    if flags.len() > 0 {
        lemma_pending_fresh(flags.drop_last());
    }
}

/// Setting a flag that was not set leaves one fewer pending.
pub proof fn lemma_pending_mark(flags: Seq<bool>, k: int)
    requires
        0 <= k < flags.len(),
        !flags[k],
    ensures
        pending(flags) > 0,
        pending(flags.update(k, true)) == pending(flags) - 1,
    decreases flags.len(),
{
    let after = flags.update(k, true);
    if k == flags.len() - 1 {
        assert(after.drop_last() =~= flags.drop_last());
    } else {
        lemma_pending_mark(flags.drop_last(), k);
        assert(after.drop_last() =~= flags.drop_last().update(k, true));
    }
}

/// Where none is pending, every flag is set.
pub proof fn lemma_pending_none(flags: Seq<bool>)
    requires
        pending(flags) == 0,
    ensures
        forall|k: int| 0 <= k < flags.len() ==> flags[k],
    decreases flags.len(),
{
    if flags.len() > 0 {
        lemma_pending_none(flags.drop_last());
        assert forall|k: int| 0 <= k < flags.len() implies flags[k] by {
            if k < flags.len() - 1 {
                assert(flags.drop_last()[k] == flags[k]);
            }
        }
    }
}

/// Where some are pending, this finds a flag that is not set.
pub proof fn lemma_pending_some(flags: Seq<bool>) -> (k: int)
    requires
        pending(flags) > 0,
    ensures
        0 <= k < flags.len(),
        !flags[k],
    decreases flags.len(),
{
    if !flags.last() {
        flags.len() - 1
    } else {
        lemma_pending_some(flags.drop_last())
    }
}

/// The vertices of an order, as integers.
pub open spec fn ids(order: Seq<usize>) -> Seq<int> {
    Seq::new(order.len(), |i: int| order[i] as int)
}

/// Distinct numbers below `n` are at most `n`, and `n` of them are all.
pub proof fn lemma_distinct_bounded(s: Seq<int>, n: int)
    requires
        0 <= n,
        s.no_duplicates(),
        forall|i: int| 0 <= i < s.len() ==> 0 <= #[trigger] s[i] < n,
    ensures
        s.len() <= n,
        s.len() == n ==> forall|v: int| 0 <= v < n ==> s.contains(v),
{
    s.unique_seq_to_set();
    lemma_int_range(0, n);
    assert(s.to_set().subset_of(set_int_range(0, n))) by {
        assert forall|v: int| s.to_set().contains(v) implies set_int_range(0, n).contains(v) by {
            let i = choose|i: int| 0 <= i < s.len() && s[i] == v;
            assert(0 <= s[i] < n);
        }
    }
    lemma_len_subset(s.to_set(), set_int_range(0, n));
    if s.len() == n {
        lemma_subset_equality(s.to_set(), set_int_range(0, n));
        assert forall|v: int| 0 <= v < n implies s.contains(v) by {
            assert(set_int_range(0, n).contains(v));
            assert(s.to_set().contains(v));
        }
    }
}

/// Distinct numbers below `n` among which every number below `n`
/// occurs are exactly `n`.
pub proof fn lemma_distinct_covering(s: Seq<int>, n: int)
    requires
        0 <= n,
        s.no_duplicates(),
        forall|i: int| 0 <= i < s.len() ==> 0 <= #[trigger] s[i] < n,
        forall|v: int| 0 <= v < n ==> s.contains(v),
    ensures
        s.len() == n,
{
    s.unique_seq_to_set();
    lemma_int_range(0, n);
    assert(s.to_set() =~= set_int_range(0, n)) by {
        assert forall|v: int| s.to_set().contains(v) <==> set_int_range(0, n).contains(v) by {
            if s.to_set().contains(v) {
                let i = choose|i: int| 0 <= i < s.len() && s[i] == v;
                assert(0 <= s[i] < n);
            }
            if set_int_range(0, n).contains(v) {
                assert(s.contains(v));
            }
        }
    }
}

/// An order without repetition stays without repetition as integers.
pub proof fn lemma_ids(order: Seq<usize>)
    requires
        order.no_duplicates(),
    ensures
        ids(order).no_duplicates(),
        ids(order).len() == order.len(),
        forall|v: int| ids(order).contains(v) ==> 0 <= v <= usize::MAX && order.contains(v as usize),
        forall|i: int| 0 <= i < order.len() ==> #[trigger] ids(order)[i] == order[i] as int,
{
    assert forall|v: int| ids(order).contains(v) implies 0 <= v <= usize::MAX && order.contains(
        v as usize,
    ) by {
        let i = choose|i: int| 0 <= i < ids(order).len() && ids(order)[i] == v;
        assert(order[i] as int == v);
    }
}

/// Along a path of dependencies the place in a fitting order only falls.
proof fn lemma_path_descends(g: Graph, order: Seq<usize>, path: Seq<int>, k: int)
    requires
        g.scheduled_by(order),
        path.len() >= 2,
        forall|k: int| 0 <= k < path.len() ==> 0 <= #[trigger] path[k] < g.len(),
        forall|k: int| 0 <= k < path.len() - 1 ==> g.depends(#[trigger] path[k], path[k + 1]),
        1 <= k < path.len(),
    ensures
        ids(order).contains(path[0]),
        ids(order).contains(path[k]),
        ids(order).index_of(path[k]) < ids(order).index_of(path[0]),
    decreases k,
{
    lemma_ids(order);
    lemma_distinct_bounded(ids(order), g.len() as int);
    let s = ids(order);
    assert(s.contains(path[0]));
    assert(s.contains(path[k]));
    assert(s.contains(path[k - 1]));
    let a = s.index_of(path[k - 1]);
    let b = s.index_of(path[k]);
    assert(order[a] as int == path[k - 1]);
    assert(order[b] as int == path[k]);
    assert(g.depends(path[k - 1], path[k]));
    assert(g.depends(order[a] as int, order[b] as int));
    assert(b < a);
    if k > 1 {
        lemma_path_descends(g, order, path, k - 1);
    }
}

/// A wiring that an order fits has no cycle.
pub proof fn lemma_scheduled_acyclic(g: Graph, order: Seq<usize>)
    requires
        g.scheduled_by(order),
    ensures
        !g.has_cycle(),
{
    if g.has_cycle() {
        let path = choose|path: Seq<int>| g.is_cycle(path);
        lemma_path_descends(g, order, path, path.len() - 1);
    }
}

/// A fitting order holds every vertex.
pub proof fn lemma_order_complete(g: Graph, order: Seq<usize>, v: int) -> (i: int)
    requires
        g.scheduled_by(order),
        0 <= v < g.len(),
    ensures
        0 <= i < order.len(),
        order[i] == v,
{
    lemma_ids(order);
    lemma_distinct_bounded(ids(order), g.len() as int);
    let s = ids(order);
    assert(s.contains(v));
    let i = s.index_of(v);
    assert(order[i] as int == s[i]);
    i
}

/// In a fitting order no vertex reads itself or a vertex placed after it.
pub proof fn lemma_reads_only_earlier(g: Graph, order: Seq<usize>, i: int, k: int)
    requires
        g.wf(),
        g.scheduled_by(order),
        0 <= i <= k < order.len(),
    ensures
        forall|c: int|
            0 <= c < g.sources[order[i] as int].len() ==> match #[trigger] g.sources[order[i] as int][c] {
                Port::Local(s, _) => s != order[k] && s < g.len(),
                _ => true,
            },
{
    let u = order[i] as int;
    let v = order[k] as int;
    assert forall|c: int| 0 <= c < g.sources[u].len() implies match #[trigger] g.sources[u][c] {
        Port::Local(s, _) => s != order[k] && s < g.len(),
        _ => true,
    } by {
        assert(g.readable(g.sources[u][c]));
        if g.reads_vertex(u, c, v) {
            assert(g.depends(order[i] as int, order[k] as int));
        }
    }
}

/// In a fitting order every vertex that a vertex reads stands before it.
pub proof fn lemma_read_stands_before(g: Graph, order: Seq<usize>, k: int, c: int) -> (i: int)
    requires
        g.wf(),
        g.scheduled_by(order),
        0 <= k < order.len(),
        0 <= c < g.sources[order[k] as int].len(),
        g.sources[order[k] as int][c] is Local,
    ensures
        0 <= i < k,
        g.sources[order[k] as int][c] matches Port::Local(s, _) && s == order[i],
{
    let t = order[k] as int;
    assert(g.readable(g.sources[t][c]));
    match g.sources[t][c] {
        Port::Local(s, _) => {
            let i = lemma_order_complete(g, order, s as int);
            assert(g.reads_vertex(t, c, s as int));
            assert(g.depends(order[k] as int, order[i] as int));
            i
        },
        _ => 0,
    }
}

/// Along a fitting order, two assignments of frames to the vertices that
/// both satisfy the same equations agree on the vertices before place `k`.
proof fn lemma_flow_unique_upto<X>(
    g: Graph,
    order: Seq<usize>,
    f: spec_fn(int, Seq<X>) -> Seq<X>,
    first: Seq<Seq<X>>,
    second: Seq<Seq<X>>,
    fed: Seq<X>,
    zero: X,
    k: int,
)
    requires
        g.wf(),
        g.scheduled_by(order),
        first.len() == g.len(),
        second.len() == g.len(),
        forall|v: int|
            0 <= v < g.len() ==> #[trigger] first[v] == f(v, gather(g.sources[v], first, fed, zero)),
        forall|v: int|
            0 <= v < g.len() ==> #[trigger] second[v] == f(
                v,
                gather(g.sources[v], second, fed, zero),
            ),
        0 <= k <= order.len(),
    ensures
        forall|i: int| 0 <= i < k ==> first[#[trigger] order[i] as int] == second[order[i] as int],
    decreases k,
{
    if k > 0 {
        lemma_flow_unique_upto(g, order, f, first, second, fed, zero, k - 1);
        let v = order[k - 1] as int;
        assert forall|c: int| 0 <= c < g.sources[v].len() implies match #[trigger] g.sources[v][c] {
            Port::Local(s, _) => first[s as int] == second[s as int],
            _ => true,
        } by {
            if g.sources[v][c] is Local {
                let i = lemma_read_stands_before(g, order, k - 1, c);
                assert(first[order[i] as int] == second[order[i] as int]);
            }
        }
        lemma_gather_agree(g.sources[v], first, second, fed, zero);
        assert(first[v] == f(v, gather(g.sources[v], first, fed, zero)));
        assert(second[v] == f(v, gather(g.sources[v], second, fed, zero)));
    }
}

/// In a wiring that an order fits, the equations that say what each
/// vertex produces from what it reads have at most one solution.
pub proof fn lemma_flow_unique<X>(
    g: Graph,
    order: Seq<usize>,
    f: spec_fn(int, Seq<X>) -> Seq<X>,
    first: Seq<Seq<X>>,
    second: Seq<Seq<X>>,
    fed: Seq<X>,
    zero: X,
)
    requires
        g.wf(),
        g.scheduled_by(order),
        first.len() == g.len(),
        second.len() == g.len(),
        forall|v: int|
            0 <= v < g.len() ==> #[trigger] first[v] == f(v, gather(g.sources[v], first, fed, zero)),
        forall|v: int|
            0 <= v < g.len() ==> #[trigger] second[v] == f(
                v,
                gather(g.sources[v], second, fed, zero),
            ),
    ensures
        first == second,
{
    lemma_flow_unique_upto(g, order, f, first, second, fed, zero, order.len() as int);
    assert forall|v: int| 0 <= v < g.len() implies first[v] == second[v] by {
        let i = lemma_order_complete(g, order, v);
        assert(first[order[i] as int] == second[order[i] as int]);
    }
    assert(first =~= second);
}

/// Input `c` of vertex `t` reads nothing that is still waiting.
pub open spec fn settled(g: Graph, waiting: Seq<bool>, t: int, c: int) -> bool {
    match g.sources[t][c] {
        Port::Local(s, _) => !waiting[s as int],
        _ => true,
    }
}

/// What the search for an order keeps true: the vertices placed so far
/// are the ones no longer waiting, each was placed after all it reads, and
/// the count of a vertex is the number of its inputs not yet ticked off.
pub open spec fn search_inv(
    g: Graph,
    order: Seq<usize>,
    waiting: Seq<bool>,
    inputs_left: Seq<usize>,
    done: Seq<Seq<bool>>,
) -> bool {
    &&& g.wf()
    &&& g.len() <= usize::MAX
    &&& waiting.len() == g.len()
    &&& inputs_left.len() == g.len()
    &&& done.len() == g.len()
    &&& forall|v: int| 0 <= v < g.len() ==> (#[trigger] done[v]).len() == g.sources[v].len()
    &&& forall|v: int| 0 <= v < g.len() ==> #[trigger] inputs_left[v] == pending(done[v])
    &&& order.no_duplicates()
    &&& forall|i: int|
        0 <= i < order.len() ==> (#[trigger] order[i]) < g.len() && !waiting[order[i] as int]
    &&& forall|v: int|
        0 <= v < g.len() && !(#[trigger] waiting[v]) ==> order.contains(v as usize)
            && inputs_left[v] == 0
    &&& forall|v: int, c: int|
        0 <= v < g.len() && 0 <= c < done[v].len() && #[trigger] done[v][c] ==> settled(
            g,
            waiting,
            v,
            c,
        )
    &&& forall|i: int, j: int|
        0 <= i < order.len() && 0 <= j < order.len() && g.depends(
            #[trigger] order[j] as int,
            #[trigger] order[i] as int,
        ) ==> i < j
}

/// Every input that reads no vertex is ticked off.
pub open spec fn externals_done(g: Graph, done: Seq<Seq<bool>>) -> bool {
    forall|v: int, c: int|
        0 <= v < g.len() && 0 <= c < g.sources[v].len() && !(g.sources[v][c] is Local)
            ==> #[trigger] done[v][c]
}

/// Every waiting vertex still has an input to tick off.
pub open spec fn eager(waiting: Seq<bool>, inputs_left: Seq<usize>) -> bool {
    forall|v: int| 0 <= v < waiting.len() && #[trigger] waiting[v] ==> inputs_left[v] > 0
}

/// A vertex that is placed has all its inputs ticked off and settled.
pub proof fn lemma_placed_settled(
    g: Graph,
    order: Seq<usize>,
    waiting: Seq<bool>,
    inputs_left: Seq<usize>,
    done: Seq<Seq<bool>>,
    u: int,
)
    requires
        search_inv(g, order, waiting, inputs_left, done),
        0 <= u < g.len(),
        inputs_left[u] == 0,
    ensures
        forall|c: int| 0 <= c < g.sources[u].len() ==> done[u][c] && settled(g, waiting, u, c),
{
    assert(done[u].len() == g.sources[u].len());
    assert(inputs_left[u] == pending(done[u]));
    lemma_pending_none(done[u]);
}

/// Ticking off a settled input of a waiting vertex keeps the search sound.
pub proof fn lemma_mark(
    g: Graph,
    order: Seq<usize>,
    waiting: Seq<bool>,
    inputs_left: Seq<usize>,
    done: Seq<Seq<bool>>,
    t: int,
    c: int,
)
    requires
        search_inv(g, order, waiting, inputs_left, done),
        0 <= t < g.len(),
        0 <= c < g.sources[t].len(),
        waiting[t],
        !done[t][c],
        settled(g, waiting, t, c),
    ensures
        inputs_left[t] > 0,
        search_inv(
            g,
            order,
            waiting,
            inputs_left.update(t, (inputs_left[t] - 1) as usize),
            done.update(t, done[t].update(c, true)),
        ),
{
    assert(done[t].len() == g.sources[t].len());
    assert(inputs_left[t] == pending(done[t]));
    lemma_pending_mark(done[t], c);
    let left2 = inputs_left.update(t, (inputs_left[t] - 1) as usize);
    let done2 = done.update(t, done[t].update(c, true));
    assert forall|v: int| 0 <= v < g.len() implies (#[trigger] done2[v]).len()
        == g.sources[v].len() by {
        assert(done[v].len() == g.sources[v].len());
    }
    assert forall|v: int| 0 <= v < g.len() implies #[trigger] left2[v] == pending(done2[v]) by {
        assert(inputs_left[v] == pending(done[v]));
    }
    assert forall|v: int, k: int|
        0 <= v < g.len() && 0 <= k < done2[v].len() && #[trigger] done2[v][k] implies settled(
        g,
        waiting,
        v,
        k,
    ) by {
        if v != t || k != c {
            assert(done[v].len() == g.sources[v].len());
            assert(done[v][k]);
        }
    }
}

/// Placing a waiting vertex whose inputs are all ticked off keeps the
/// search sound.
pub proof fn lemma_place(
    g: Graph,
    order: Seq<usize>,
    waiting: Seq<bool>,
    inputs_left: Seq<usize>,
    done: Seq<Seq<bool>>,
    t: usize,
)
    requires
        search_inv(g, order, waiting, inputs_left, done),
        t < g.len(),
        waiting[t as int],
        inputs_left[t as int] == 0,
    ensures
        search_inv(g, order.push(t), waiting.update(t as int, false), inputs_left, done),
        order.len() < g.len(),
{
    let order2 = order.push(t);
    let waiting2 = waiting.update(t as int, false);
    let m = order.len() as int;
    lemma_placed_settled(g, order, waiting, inputs_left, done, t as int);
    assert(!order.contains(t)) by {
        if order.contains(t) {
            let i = choose|i: int| 0 <= i < order.len() && order[i] == t;
            assert(!waiting[order[i] as int]);
        }
    }
    assert(order2.no_duplicates());
    assert forall|v: int| 0 <= v < g.len() && !(#[trigger] waiting2[v]) implies order2.contains(
        v as usize,
    ) && inputs_left[v] == 0 by {
        if v == t {
            assert(order2[m] == t);
        } else {
            assert(!waiting[v]);
            let i = choose|i: int| 0 <= i < order.len() && order[i] == v as usize;
            assert(order2[i] == v as usize);
        }
    }
    assert forall|v: int, c: int|
        0 <= v < g.len() && 0 <= c < done[v].len() && #[trigger] done[v][c] implies settled(
        g,
        waiting2,
        v,
        c,
    ) by {
        assert(settled(g, waiting, v, c));
    }
    assert forall|i: int, j: int|
        0 <= i < order2.len() && 0 <= j < order2.len() && g.depends(
            #[trigger] order2[j] as int,
            #[trigger] order2[i] as int,
        ) implies i < j by {
        let a = order2[j] as int;
        let b = order2[i] as int;
        let c = choose|c: int| 0 <= c < g.sources[a].len() && #[trigger] g.reads_vertex(a, c, b);
        if j == m {
            assert(settled(g, waiting, t as int, c));
            assert(!waiting[b]);
            assert(i != m);
        } else if i == m {
            assert(order[j] as int == a);
            assert(!waiting[a]);
            lemma_placed_settled(g, order, waiting, inputs_left, done, a);
            assert(settled(g, waiting, a, c));
            assert(false);
        } else {
            assert(order[j] == order2[j]);
            assert(order[i] == order2[i]);
        }
    }
    lemma_ids(order2);
    lemma_distinct_bounded(ids(order2), g.len() as int);
}

/// The search never places more vertices than there are.
pub proof fn lemma_place_bound(
    g: Graph,
    order: Seq<usize>,
    waiting: Seq<bool>,
    inputs_left: Seq<usize>,
    done: Seq<Seq<bool>>,
)
    requires
        search_inv(g, order, waiting, inputs_left, done),
    ensures
        order.len() <= g.len(),
{
    lemma_ids(order);
    lemma_distinct_bounded(ids(order), g.len() as int);
}

/// A waiting vertex that reads `t`, where there is one.
pub open spec fn next_waiting(g: Graph, waiting: Seq<bool>, t: int) -> int {
    choose|s: int| 0 <= s < g.len() && waiting[s] && g.depends(t, s)
}

/// The vertex reached from `t` in `k` steps from a waiting vertex to one
/// that it reads.
pub open spec fn walk(g: Graph, waiting: Seq<bool>, t: int, k: nat) -> int
    decreases k,
{
    if k == 0 {
        t
    } else {
        next_waiting(g, waiting, walk(g, waiting, t, (k - 1) as nat))
    }
}

/// Every waiting vertex reads a waiting vertex.
pub open spec fn stuck(g: Graph, waiting: Seq<bool>) -> bool {
    forall|t: int|
        0 <= t < g.len() && #[trigger] waiting[t] ==> exists|s: int|
            0 <= s < g.len() && waiting[s] && g.depends(t, s)
}

proof fn lemma_walk(g: Graph, waiting: Seq<bool>, t: int, k: nat)
    requires
        waiting.len() == g.len(),
        stuck(g, waiting),
        0 <= t < g.len(),
        waiting[t],
    ensures
        0 <= walk(g, waiting, t, k) < g.len(),
        waiting[walk(g, waiting, t, k)],
        g.depends(walk(g, waiting, t, k), walk(g, waiting, t, k + 1)),
    decreases k,
{
    if k > 0 {
        lemma_walk(g, waiting, t, (k - 1) as nat);
    }
    let here = walk(g, waiting, t, k);
    assert(waiting[here]);
    assert(walk(g, waiting, t, k + 1) == next_waiting(g, waiting, here));
}

/// Where every waiting vertex reads a waiting vertex and one is waiting,
/// the wiring has a cycle.
pub proof fn lemma_stuck_cycle(g: Graph, waiting: Seq<bool>, t: int)
    requires
        waiting.len() == g.len(),
        stuck(g, waiting),
        0 <= t < g.len(),
        waiting[t],
    ensures
        g.has_cycle(),
{
    let n = g.len();
    let path = Seq::new(n + 1, |k: int| walk(g, waiting, t, k as nat));
    assert forall|k: int| 0 <= k < path.len() implies 0 <= #[trigger] path[k] < n
        && g.depends(path[k], walk(g, waiting, t, (k + 1) as nat)) by {
        lemma_walk(g, waiting, t, k as nat);
    }
    if path.no_duplicates() {
        lemma_distinct_bounded(path, n as int);
        assert(false);
    }
    let (i, j) = choose|i: int, j: int|
        0 <= i < path.len() && 0 <= j < path.len() && i != j && path[i] == path[j];
    let (lo, hi) = if i < j {
        (i, j)
    } else {
        (j, i)
    };
    let cycle = path.subrange(lo, hi + 1);
    assert forall|k: int| 0 <= k < cycle.len() - 1 implies g.depends(
        #[trigger] cycle[k],
        cycle[k + 1],
    ) by {
        assert(cycle[k] == path[lo + k]);
        assert(cycle[k + 1] == path[lo + k + 1]);
    }
    assert forall|k: int| 0 <= k < cycle.len() implies 0 <= #[trigger] cycle[k] < g.len() by {
        assert(cycle[k] == path[lo + k]);
    }
    assert(g.is_cycle(cycle));
}

/// When the search can place no further vertex, though some still wait,
/// the wiring has a cycle.
pub proof fn lemma_search_stuck(
    g: Graph,
    order: Seq<usize>,
    waiting: Seq<bool>,
    inputs_left: Seq<usize>,
    done: Seq<Seq<bool>>,
)
    requires
        search_inv(g, order, waiting, inputs_left, done),
        eager(waiting, inputs_left),
        order.len() < g.len(),
        forall|t: int, c: int|
            0 <= t < g.len() && 0 <= c < g.sources[t].len() && waiting[t] && !(
            #[trigger] done[t][c]) ==> !settled(g, waiting, t, c),
    ensures
        g.has_cycle(),
{
    assert(stuck(g, waiting)) by {
        assert forall|t: int| 0 <= t < g.len() && #[trigger] waiting[t] implies exists|s: int|
            0 <= s < g.len() && waiting[s] && g.depends(t, s) by {
            assert(inputs_left[t] == pending(done[t]));
            assert(done[t].len() == g.sources[t].len());
            let c = lemma_pending_some(done[t]);
            assert(!done[t][c]);
            assert(!settled(g, waiting, t, c));
            assert(g.readable(g.sources[t][c]));
            match g.sources[t][c] {
                Port::Local(s, _) => {
                    assert(g.reads_vertex(t, c, s as int));
                    assert(g.depends(t, s as int));
                },
                _ => {},
            }
        }
    }
    if forall|v: int| 0 <= v < g.len() ==> !waiting[v] {
        lemma_ids(order);
        assert forall|v: int| 0 <= v < g.len() implies ids(order).contains(v) by {
            assert(!waiting[v]);
            let i = choose|i: int| 0 <= i < order.len() && order[i] == v as usize;
            assert(ids(order)[i] == v);
        }
        lemma_distinct_covering(ids(order), g.len() as int);
        assert(false);
    }
    let t = choose|v: int| 0 <= v < g.len() && waiting[v];
    lemma_stuck_cycle(g, waiting, t);
}

/// `order` places some of the vertices, each once and each after all the
/// vertices it reads.
pub open spec fn places(g: Graph, order: Seq<usize>) -> bool {
    &&& order.no_duplicates()
    &&& forall|i: int| 0 <= i < order.len() ==> (#[trigger] order[i]) < g.len()
    &&& forall|i: int, s: int|
        0 <= i < order.len() && 0 <= s < g.len() && #[trigger] g.depends(order[i] as int, s)
            ==> exists|k: int| 0 <= k < i && order[k] == s
}

/// In a wiring without a cycle, an order that does not yet place every
/// vertex can place one more.
proof fn lemma_places_one_more(g: Graph, order: Seq<usize>) -> (t: usize)
    requires
        g.wf(),
        g.len() <= usize::MAX,
        places(g, order),
        order.len() < g.len(),
        !g.has_cycle(),
    ensures
        places(g, order.push(t)),
{
    let n = g.len();
    let waiting = Seq::new(n, |v: int| !order.contains(v as usize));
    if forall|v: int| 0 <= v < n ==> !waiting[v] {
        lemma_ids(order);
        assert forall|v: int| 0 <= v < n implies ids(order).contains(v) by {
            assert(!waiting[v]);
            let i = choose|i: int| 0 <= i < order.len() && order[i] == v as usize;
            assert(ids(order)[i] == v);
        }
        lemma_distinct_covering(ids(order), n as int);
    }
    let first = choose|v: int| 0 <= v < n && waiting[v];
    if stuck(g, waiting) {
        lemma_stuck_cycle(g, waiting, first);
    }
    let t = choose|t: int|
        0 <= t < n && #[trigger] waiting[t] && !exists|s: int|
            0 <= s < n && waiting[s] && g.depends(t, s);
    let longer = order.push(t as usize);
    assert(!order.contains(t as usize));
    assert forall|i: int, s: int|
        0 <= i < longer.len() && 0 <= s < n && #[trigger] g.depends(
            longer[i] as int,
            s,
        ) implies exists|k: int| 0 <= k < i && longer[k] == s by {
        if i < order.len() {
            assert(g.depends(order[i] as int, s));
            let k = choose|k: int| 0 <= k < i && order[k] == s;
            assert(longer[k] == s);
        } else {
            assert(!waiting[s]);
            let k = choose|k: int| 0 <= k < order.len() && order[k] == s as usize;
            assert(longer[k] == s);
        }
    }
    t as usize
}

/// An order that places every vertex fits the wiring.
proof fn lemma_places_all(g: Graph, order: Seq<usize>)
    requires
        g.wf(),
        places(g, order),
        order.len() == g.len(),
    ensures
        g.scheduled_by(order),
{
    assert forall|i: int, j: int|
        0 <= i < order.len() && 0 <= j < order.len() && g.depends(
            #[trigger] order[j] as int,
            #[trigger] order[i] as int,
        ) implies i < j by {
        let k = choose|k: int| 0 <= k < j && order[k] == order[i] as int;
        assert(k == i);
    }
}

proof fn lemma_places_grows(g: Graph, order: Seq<usize>) -> (full: Seq<usize>)
    requires
        g.wf(),
        g.len() <= usize::MAX,
        places(g, order),
        !g.has_cycle(),
    ensures
        g.scheduled_by(full),
    decreases g.len() - order.len(),
{
    lemma_ids(order);
    lemma_distinct_bounded(ids(order), g.len() as int);
    if order.len() == g.len() {
        lemma_places_all(g, order);
        order
    } else {
        let t = lemma_places_one_more(g, order);
        lemma_places_grows(g, order.push(t))
    }
}

/// A wiring without a cycle has an order that fits it.
pub proof fn lemma_acyclic_scheduled(g: Graph) -> (order: Seq<usize>)
    requires
        g.wf(),
        g.len() <= usize::MAX,
        !g.has_cycle(),
    ensures
        g.scheduled_by(order),
{
    lemma_places_grows(g, Seq::empty())
}

/// The flags of each row, as plain sequences.
pub open spec fn rows(done: Seq<Vec<bool>>) -> Seq<Seq<bool>> {
    Seq::new(done.len(), |v: int| done[v]@)
}

/// Create a row of `size` flags, none of them set.
pub(crate) fn new_row(size: usize) -> (row: Vec<bool>)
    ensures
        row.len() == size,
        forall|c: int| 0 <= c < size ==> !row@[c],
{
    let mut row: Vec<bool> = Vec::new();
    let mut c: usize = 0;
    while c < size
        invariant
            c <= size,
            row.len() == c,
            forall|k: int| 0 <= k < c ==> !row@[k],
        decreases size - c,
    {
        row.push(false);
        c += 1;
    }
    row
}

/// Append a vertex that waits for nothing more to the order.
pub(crate) fn place(
    g: Ghost<Graph>,
    order: &mut Vec<NodeIndex>,
    waiting: &mut Vec<bool>,
    inputs_left: &Vec<usize>,
    done: &Vec<Vec<bool>>,
    t: usize,
)
    requires
        search_inv(g@, old(order)@, old(waiting)@, inputs_left@, rows(done@)),
        t < g@.len(),
        old(waiting)@[t as int],
        inputs_left@[t as int] == 0,
    ensures
        search_inv(g@, final(order)@, final(waiting)@, inputs_left@, rows(done@)),
        final(order)@ == old(order)@.push(t),
        final(waiting)@ == old(waiting)@.update(t as int, false),
{
    proof {
        lemma_place(g@, order@, waiting@, inputs_left@, rows(done@), t);
    }
    waiting[t] = false;
    order.push(t);
}

/// Tick off input `c` of the waiting vertex `t`, and append the vertex to
/// the order when that was the last input it waited for.
pub(crate) fn tick_off(
    g: Ghost<Graph>,
    order: &mut Vec<NodeIndex>,
    waiting: &mut Vec<bool>,
    inputs_left: &mut Vec<usize>,
    done: &mut Vec<Vec<bool>>,
    t: usize,
    c: usize,
)
    requires
        search_inv(g@, old(order)@, old(waiting)@, old(inputs_left)@, rows(old(done)@)),
        eager(old(waiting)@, old(inputs_left)@),
        t < g@.len(),
        c < g@.sources[t as int].len(),
        old(waiting)@[t as int],
        !old(done)@[t as int]@[c as int],
        settled(g@, old(waiting)@, t as int, c as int),
    ensures
        search_inv(g@, final(order)@, final(waiting)@, final(inputs_left)@, rows(final(done)@)),
        eager(final(waiting)@, final(inputs_left)@),
        rows(final(done)@) == rows(old(done)@).update(
            t as int,
            rows(old(done)@)[t as int].update(c as int, true),
        ),
        final(order)@ == old(order)@ && final(waiting)@ == old(waiting)@ || final(order)@ == old(
            order,
        )@.push(t) && final(waiting)@ == old(waiting)@.update(t as int, false),
{
    proof {
        lemma_mark(g@, order@, waiting@, inputs_left@, rows(done@), t as int, c as int);
        assert(rows(done@)[t as int].len() == g@.sources[t as int].len());
    }
    done[t][c] = true;
    inputs_left[t] = inputs_left[t] - 1;
    assert(rows(done@) =~= rows(old(done)@).update(
        t as int,
        rows(old(done)@)[t as int].update(c as int, true),
    ));
    if inputs_left[t] == 0 {
        place(g, order, waiting, inputs_left, done, t);
    }
}

} // verus!
