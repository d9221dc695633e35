//! What a whole wiring answers to a history of input frames, given what
//! each vertex answers to the history it reads.

use vstd::prelude::*;
use crate::graph::{Graph, gather, lemma_gather_agree};
use crate::port::Port;
use crate::schedule::{lemma_order_complete, lemma_read_stands_before};

verus! {

/// What vertex `v` reads over the first `n` samples, when the vertices
/// produced `trace[i]` at sample `i` and the network was fed `fed[i]`.
pub open spec fn heard_in<X>(
    g: Graph,
    fed: Seq<Seq<X>>,
    zero: X,
    trace: Seq<Seq<Seq<X>>>,
    v: int,
    n: nat,
) -> Seq<Seq<X>> {
    Seq::new(n, |i: int| gather(g.sources[v], trace[i], fed[i], zero))
}

/// `trace` holds, for every sample of `fed`, what every vertex produces:
/// the answer `respond` gives for that vertex to all it has read so far.
pub open spec fn solves<X>(
    g: Graph,
    respond: spec_fn(int, Seq<Seq<X>>) -> Seq<X>,
    fed: Seq<Seq<X>>,
    zero: X,
    trace: Seq<Seq<Seq<X>>>,
) -> bool {
    &&& trace.len() == fed.len()
    &&& forall|j: int| 0 <= j < fed.len() ==> (#[trigger] trace[j]).len() == g.len()
    &&& forall|j: int, v: int|
        0 <= j < fed.len() && 0 <= v < g.len() ==> #[trigger] trace[j][v] == respond(
            v,
            heard_in(g, fed, zero, trace, v, (j + 1) as nat),
        )
}

/// What the network outputs read at the last sample of `fed`.
pub open spec fn net_response<X>(
    g: Graph,
    respond: spec_fn(int, Seq<Seq<X>>) -> Seq<X>,
    fed: Seq<Seq<X>>,
    zero: X,
) -> Seq<X> {
    if exists|trace: Seq<Seq<Seq<X>>>| solves(g, respond, fed, zero, trace) {
        let trace = choose|trace: Seq<Seq<Seq<X>>>| solves(g, respond, fed, zero, trace);
        gather(g.output_sources, trace[fed.len() - 1], fed[fed.len() - 1], zero)
    } else {
        Seq::empty()
    }
}

proof fn lemma_trace_unique_upto<X>(
    g: Graph,
    order: Seq<usize>,
    respond: spec_fn(int, Seq<Seq<X>>) -> Seq<X>,
    fed: Seq<Seq<X>>,
    zero: X,
    first: Seq<Seq<Seq<X>>>,
    second: Seq<Seq<Seq<X>>>,
    k: int,
)
    requires
        g.wf(),
        g.scheduled_by(order),
        solves(g, respond, fed, zero, first),
        solves(g, respond, fed, zero, second),
        0 <= k <= order.len(),
    ensures
        forall|i: int, j: int|
            0 <= i < k && 0 <= j < fed.len() ==> (#[trigger] first[j])[(
            #[trigger] order[i]) as int] == second[j][order[i] as int],
    decreases k,
{
    if k > 0 {
        lemma_trace_unique_upto(g, order, respond, fed, zero, first, second, k - 1);
        let v = order[k - 1] as int;
        assert forall|j: int| 0 <= j < fed.len() implies (#[trigger] first[j])[v]
            == second[j][v] by {
            assert forall|i: int| 0 <= i <= j implies gather(
                g.sources[v],
                #[trigger] first[i],
                fed[i],
                zero,
            ) == gather(g.sources[v], second[i], fed[i], zero) by {
                assert forall|c: int| 0 <= c < g.sources[v].len() implies match #[trigger] g.sources[v][c] {
                    Port::Local(s, _) => first[i][s as int] == second[i][s as int],
                    _ => true,
                } by {
                    if g.sources[v][c] is Local {
                        let at = lemma_read_stands_before(g, order, k - 1, c);
                        assert(first[i][order[at] as int] == second[i][order[at] as int]);
                    }
                }
                lemma_gather_agree(g.sources[v], first[i], second[i], fed[i], zero);
            }
            assert(heard_in(g, fed, zero, first, v, (j + 1) as nat) =~= heard_in(
                g,
                fed,
                zero,
                second,
                v,
                (j + 1) as nat,
            ));
            assert(first[j][v] == respond(v, heard_in(g, fed, zero, first, v, (j + 1) as nat)));
            assert(second[j][v] == respond(v, heard_in(g, fed, zero, second, v, (j + 1) as nat)));
        }
    }
}

/// In a wiring that an order fits, what the vertices produce over a
/// history is determined.
pub proof fn lemma_trace_unique<X>(
    g: Graph,
    order: Seq<usize>,
    respond: spec_fn(int, Seq<Seq<X>>) -> Seq<X>,
    fed: Seq<Seq<X>>,
    zero: X,
    first: Seq<Seq<Seq<X>>>,
    second: Seq<Seq<Seq<X>>>,
)
    requires
        g.wf(),
        g.scheduled_by(order),
        solves(g, respond, fed, zero, first),
        solves(g, respond, fed, zero, second),
    ensures
        first == second,
{
    lemma_trace_unique_upto(g, order, respond, fed, zero, first, second, order.len() as int);
    assert forall|j: int| 0 <= j < fed.len() implies first[j] == second[j] by {
        assert forall|v: int| 0 <= v < g.len() implies first[j][v] == second[j][v] by {
            let i = lemma_order_complete(g, order, v);
            assert(first[j][order[i] as int] == second[j][order[i] as int]);
        }
        assert(first[j].len() == g.len());
        assert(second[j].len() == g.len());
        assert(first[j] =~= second[j]);
    }
    assert(first =~= second);
}

/// The answer of the network is read off any trace that fits.
pub proof fn lemma_response_of<X>(
    g: Graph,
    order: Seq<usize>,
    respond: spec_fn(int, Seq<Seq<X>>) -> Seq<X>,
    fed: Seq<Seq<X>>,
    zero: X,
    trace: Seq<Seq<Seq<X>>>,
)
    requires
        g.wf(),
        g.scheduled_by(order),
        solves(g, respond, fed, zero, trace),
    ensures
        net_response(g, respond, fed, zero) == gather(
            g.output_sources,
            trace[fed.len() - 1],
            fed[fed.len() - 1],
            zero,
        ),
{
    let chosen = choose|trace: Seq<Seq<Seq<X>>>| solves(g, respond, fed, zero, trace);
    lemma_trace_unique(g, order, respond, fed, zero, chosen, trace);
}

/// A trace that fits a history fits each of its beginnings.
pub proof fn lemma_solves_beginning<X>(
    g: Graph,
    respond: spec_fn(int, Seq<Seq<X>>) -> Seq<X>,
    fed: Seq<Seq<X>>,
    zero: X,
    trace: Seq<Seq<Seq<X>>>,
    m: int,
)
    requires
        solves(g, respond, fed, zero, trace),
        0 <= m <= fed.len(),
    ensures
        solves(g, respond, fed.take(m), zero, trace.take(m)),
{
    assert forall|j: int, v: int| 0 <= j < m && 0 <= v < g.len() implies #[trigger] trace.take(
        m,
    )[j][v] == respond(v, heard_in(g, fed.take(m), zero, trace.take(m), v, (j + 1) as nat)) by {
        assert(trace[j][v] == respond(v, heard_in(g, fed, zero, trace, v, (j + 1) as nat)));
        assert(heard_in(g, fed.take(m), zero, trace.take(m), v, (j + 1) as nat) =~= heard_in(
            g,
            fed,
            zero,
            trace,
            v,
            (j + 1) as nat,
        ));
    }
    assert forall|j: int| 0 <= j < m implies (#[trigger] trace.take(m)[j]).len() == g.len() by {
        assert(trace[j].len() == g.len());
    }
}

/// `later` answers, for every vertex, as `earlier` does once the vertex
/// has read what `trace` makes it read over `fed`.
pub open spec fn moved_on<X>(
    g: Graph,
    earlier: spec_fn(int, Seq<Seq<X>>) -> Seq<X>,
    later: spec_fn(int, Seq<Seq<X>>) -> Seq<X>,
    fed: Seq<Seq<X>>,
    zero: X,
    trace: Seq<Seq<Seq<X>>>,
) -> bool {
    forall|v: int, h: Seq<Seq<X>>|
        0 <= v < g.len() && h.len() > 0 ==> #[trigger] later(v, h) == earlier(
            v,
            heard_in(g, fed, zero, trace, v, fed.len()) + h,
        )
}

proof fn lemma_heard_joined<X>(
    g: Graph,
    fed: Seq<Seq<X>>,
    more: Seq<Seq<X>>,
    zero: X,
    trace: Seq<Seq<Seq<X>>>,
    rest: Seq<Seq<Seq<X>>>,
    v: int,
    j: int,
)
    requires
        trace.len() == fed.len(),
        rest.len() == more.len(),
        0 <= j < more.len(),
    ensures
        heard_in(g, fed + more, zero, trace + rest, v, (fed.len() + j + 1) as nat) == heard_in(
            g,
            fed,
            zero,
            trace,
            v,
            fed.len(),
        ) + heard_in(g, more, zero, rest, v, (j + 1) as nat),
        forall|i: int|
            0 <= i < fed.len() ==> heard_in(g, fed + more, zero, trace + rest, v, (i + 1) as nat)
                == #[trigger] heard_in(g, fed, zero, trace, v, (i + 1) as nat),
{
    let m = fed.len() as int;
    assert(heard_in(g, fed + more, zero, trace + rest, v, (m + j + 1) as nat) =~= heard_in(
        g,
        fed,
        zero,
        trace,
        v,
        fed.len(),
    ) + heard_in(g, more, zero, rest, v, (j + 1) as nat)) by {
        let joined = heard_in(g, fed + more, zero, trace + rest, v, (m + j + 1) as nat);
        let parts = heard_in(g, fed, zero, trace, v, fed.len()) + heard_in(
            g,
            more,
            zero,
            rest,
            v,
            (j + 1) as nat,
        );
        assert forall|i: int| 0 <= i < m + j + 1 implies joined[i] == parts[i] by {
            if i < m {
                assert((fed + more)[i] == fed[i]);
                assert((trace + rest)[i] == trace[i]);
            } else {
                assert((fed + more)[i] == more[i - m]);
                assert((trace + rest)[i] == rest[i - m]);
            }
        }
    }
    assert forall|i: int| 0 <= i < fed.len() implies heard_in(
        g,
        fed + more,
        zero,
        trace + rest,
        v,
        (i + 1) as nat,
    ) == #[trigger] heard_in(g, fed, zero, trace, v, (i + 1) as nat) by {
        assert(heard_in(g, fed + more, zero, trace + rest, v, (i + 1) as nat) =~= heard_in(
            g,
            fed,
            zero,
            trace,
            v,
            (i + 1) as nat,
        ));
    }
}

/// A network that has moved on over one history answers to a further
/// history as it did before to both on end.
pub proof fn lemma_shift<X>(
    g: Graph,
    order: Seq<usize>,
    earlier: spec_fn(int, Seq<Seq<X>>) -> Seq<X>,
    later: spec_fn(int, Seq<Seq<X>>) -> Seq<X>,
    fed: Seq<Seq<X>>,
    zero: X,
    trace: Seq<Seq<Seq<X>>>,
    more: Seq<Seq<X>>,
)
    requires
        g.wf(),
        g.scheduled_by(order),
        solves(g, earlier, fed, zero, trace),
        moved_on(g, earlier, later, fed, zero, trace),
        more.len() > 0,
    ensures
        net_response(g, later, more, zero) == net_response(g, earlier, fed + more, zero),
{
    let m = fed.len() as int;
    let all = fed + more;
    if exists|rest: Seq<Seq<Seq<X>>>| solves(g, later, more, zero, rest) {
        let rest = choose|rest: Seq<Seq<Seq<X>>>| solves(g, later, more, zero, rest);
        let joined = trace + rest;
        assert forall|j: int, v: int| 0 <= j < all.len() && 0 <= v < g.len() implies #[trigger] joined[j][v]
            == earlier(v, heard_in(g, all, zero, joined, v, (j + 1) as nat)) by {
            if j < m {
                lemma_heard_joined(g, fed, more, zero, trace, rest, v, 0);
                assert(trace[j][v] == earlier(v, heard_in(g, fed, zero, trace, v, (j + 1) as nat)));
                assert(heard_in(g, all, zero, joined, v, (j + 1) as nat) == heard_in(
                    g,
                    fed,
                    zero,
                    trace,
                    v,
                    (j + 1) as nat,
                ));
            } else {
                lemma_heard_joined(g, fed, more, zero, trace, rest, v, j - m);
                assert(rest[j - m][v] == later(
                    v,
                    heard_in(g, more, zero, rest, v, (j - m + 1) as nat),
                ));
            }
        }
        assert forall|j: int| 0 <= j < all.len() implies (#[trigger] joined[j]).len()
            == g.len() by {
            if j < m {
                assert(trace[j].len() == g.len());
            } else {
                assert(rest[j - m].len() == g.len());
            }
        }
        assert(solves(g, earlier, all, zero, joined));
        lemma_response_of(g, order, earlier, all, zero, joined);
        assert(joined[all.len() - 1] == rest[more.len() - 1]);
        assert(all[all.len() - 1] == more[more.len() - 1]);
    } else {
        if exists|whole: Seq<Seq<Seq<X>>>| solves(g, earlier, all, zero, whole) {
            let whole = choose|whole: Seq<Seq<Seq<X>>>| solves(g, earlier, all, zero, whole);
            lemma_solves_beginning(g, earlier, all, zero, whole, m);
            assert(all.take(m) =~= fed);
            lemma_trace_unique(g, order, earlier, fed, zero, whole.take(m), trace);
            let rest = whole.skip(m);
            assert(whole =~= trace + rest);
            assert forall|j: int, v: int| 0 <= j < more.len() && 0 <= v < g.len() implies #[trigger] rest[j][v]
                == later(v, heard_in(g, more, zero, rest, v, (j + 1) as nat)) by {
                lemma_heard_joined(g, fed, more, zero, trace, rest, v, j);
                assert(whole[m + j][v] == earlier(
                    v,
                    heard_in(g, all, zero, whole, v, (m + j + 1) as nat),
                ));
            }
            assert forall|j: int| 0 <= j < more.len() implies (#[trigger] rest[j]).len()
                == g.len() by {
                assert(whole[m + j].len() == g.len());
            }
            assert(solves(g, later, more, zero, rest));
            assert(false);
        }
    }
}

/// Where two families of answers agree on every history that is not
/// empty, the networks answer alike.
pub proof fn lemma_response_alike<X>(
    g: Graph,
    order: Seq<usize>,
    first: spec_fn(int, Seq<Seq<X>>) -> Seq<X>,
    second: spec_fn(int, Seq<Seq<X>>) -> Seq<X>,
    fed: Seq<Seq<X>>,
    zero: X,
)
    requires
        g.wf(),
        g.scheduled_by(order),
        forall|v: int, h: Seq<Seq<X>>|
            0 <= v < g.len() && h.len() > 0 ==> #[trigger] first(v, h) == second(v, h),
    ensures
        net_response(g, first, fed, zero) == net_response(g, second, fed, zero),
{
    assert forall|trace: Seq<Seq<Seq<X>>>| solves(g, first, fed, zero, trace) <==> solves(
        g,
        second,
        fed,
        zero,
        trace,
    ) by {
        if solves(g, first, fed, zero, trace) {
            assert forall|j: int, v: int| 0 <= j < fed.len() && 0 <= v < g.len() implies #[trigger] trace[j][v]
                == second(v, heard_in(g, fed, zero, trace, v, (j + 1) as nat)) by {
                assert(trace[j][v] == first(v, heard_in(g, fed, zero, trace, v, (j + 1) as nat)));
            }
        }
        if solves(g, second, fed, zero, trace) {
            assert forall|j: int, v: int| 0 <= j < fed.len() && 0 <= v < g.len() implies #[trigger] trace[j][v]
                == first(v, heard_in(g, fed, zero, trace, v, (j + 1) as nat)) by {
                assert(trace[j][v] == second(v, heard_in(g, fed, zero, trace, v, (j + 1) as nat)));
            }
        }
    }
    if exists|trace: Seq<Seq<Seq<X>>>| solves(g, first, fed, zero, trace) {
        let a = choose|trace: Seq<Seq<Seq<X>>>| solves(g, first, fed, zero, trace);
        assert(solves(g, second, fed, zero, a));
        lemma_response_of(g, order, second, fed, zero, a);
    } else {
        if exists|trace: Seq<Seq<Seq<X>>>| solves(g, second, fed, zero, trace) {
            let b = choose|trace: Seq<Seq<Seq<X>>>| solves(g, second, fed, zero, trace);
            assert(solves(g, first, fed, zero, b));
        }
    }
}

} // verus!
