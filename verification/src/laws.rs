//! Laws that relate the operations of a network to each other.

use vstd::prelude::*;
use crate::graph::{Graph, gather, lemma_gather_agree};
use crate::net::Net48;
use crate::port::Port;
use crate::sample::Sample;
use crate::schedule::{
    lemma_acyclic_scheduled, lemma_flow_unique, lemma_order_complete, lemma_read_stands_before,
};
use crate::signal::{Signal, silent_signal};

verus! {

/// An input that is not connected reads as silence, whatever the vertices
/// produced and whatever the network is fed.
pub proof fn lemma_unconnected_reads_zero<T: Sample, R: Sample>(
    net: &Net48<T, R>,
    v: int,
    c: int,
    produced: Seq<Seq<T>>,
    fed: Seq<T>,
)
    requires
        0 <= v < net.len(),
        0 <= c < net.graph().sources[v].len(),
        net.graph().sources[v][c] == Port::Zero,
    ensures
        net.frame_into(v, produced, fed)[c] == T::zero_spec(),
{
}

/// An output of the network that is not connected reads as silence after
/// every sample.
pub proof fn lemma_unconnected_output_is_zero<T: Sample, R: Sample>(
    before: &Net48<T, R>,
    after: &Net48<T, R>,
    fed: Seq<T>,
    output: Seq<T>,
    c: int,
)
    requires
        after.ticked(before, fed, output),
        0 <= c < after.graph().output_sources.len(),
        after.graph().output_sources[c] == Port::Zero,
    ensures
        output[c] == T::zero_spec(),
{
}

/// The frames that vertex `v` reads over a run of single samples, where
/// `nets[i + 1]` is the network after sample `i`.
pub open spec fn heard_by_ticks<T: Sample, R: Sample>(
    nets: Seq<Net48<T, R>>,
    fed: Seq<Seq<T>>,
    v: int,
) -> Seq<Seq<T>> {
    Seq::new(fed.len(), |j: int| nets[j + 1].frame_into(v, nets[j + 1].latest(), fed[j]))
}

/// After `i` single samples a unit responds as it did at the start to
/// what it has read since and what follows.
proof fn lemma_ticks_accumulate<T: Sample, R: Sample>(
    nets: Seq<Net48<T, R>>,
    fed: Seq<Seq<T>>,
    outs: Seq<Seq<T>>,
    v: int,
    i: int,
)
    requires
        nets.len() == fed.len() + 1,
        outs.len() == fed.len(),
        forall|j: int|
            0 <= j < fed.len() ==> (#[trigger] nets[j + 1]).ticked(&nets[j], fed[j], outs[j]),
        0 <= v < nets[0].len(),
        0 <= i <= fed.len(),
    ensures
        nets[i].len() == nets[0].len(),
        nets[i].graph() == nets[0].graph(),
        forall|h: Seq<Seq<T>>|
            h.len() > 0 ==> #[trigger] nets[i].unit(v).0.response(h) == nets[0].unit(
                v,
            ).0.response(heard_by_ticks(nets, fed, v).take(i) + h),
    decreases i,
{
    let heard = heard_by_ticks(nets, fed, v);
    if i == 0 {
        assert forall|h: Seq<Seq<T>>| h.len() > 0 implies #[trigger] nets[0].unit(v).0.response(h)
            == nets[0].unit(v).0.response(heard.take(0) + h) by {
            assert(heard.take(0) + h =~= h);
        }
    } else {
        lemma_ticks_accumulate(nets, fed, outs, v, i - 1);
        assert(nets[i - 1 + 1].ticked(&nets[i - 1], fed[i - 1], outs[i - 1]));
        assert(nets[i].stepped(&nets[i - 1], fed[i - 1], v));
        assert forall|h: Seq<Seq<T>>| h.len() > 0 implies #[trigger] nets[i].unit(v).0.response(h)
            == nets[0].unit(v).0.response(heard.take(i) + h) by {
            let frame = heard[i - 1];
            assert(nets[i].unit(v).0.response(h) == nets[i - 1].unit(v).0.response(seq![frame] + h));
            assert(heard.take(i - 1) + (seq![frame] + h) =~= heard.take(i) + h);
        }
    }
}

/// What a vertex puts out at sample `i` of a run of single samples is its
/// response at the start to what it has read up to that sample.
proof fn lemma_tick_output<T: Sample, R: Sample>(
    nets: Seq<Net48<T, R>>,
    fed: Seq<Seq<T>>,
    outs: Seq<Seq<T>>,
    v: int,
    i: int,
)
    requires
        nets.len() == fed.len() + 1,
        outs.len() == fed.len(),
        forall|j: int|
            0 <= j < fed.len() ==> (#[trigger] nets[j + 1]).ticked(&nets[j], fed[j], outs[j]),
        0 <= v < nets[0].len(),
        0 <= i < fed.len(),
    ensures
        nets[i + 1].latest()[v] == nets[0].unit(v).0.response(
            heard_by_ticks(nets, fed, v).take(i + 1),
        ),
{
    let heard = heard_by_ticks(nets, fed, v);
    lemma_ticks_accumulate(nets, fed, outs, v, i);
    assert(nets[i + 1].ticked(&nets[i], fed[i], outs[i]));
    assert(nets[i + 1].stepped(&nets[i], fed[i], v));
    assert(heard.take(i) + seq![heard[i]] =~= heard.take(i + 1));
}

/// Vertices that stand before place `k` in the order put out the same,
/// sample by sample, in a run of single samples and in one block.
proof fn lemma_ticks_match_block_upto<T: Sample, R: Sample>(
    nets: Seq<Net48<T, R>>,
    block: Net48<T, R>,
    fed: Seq<Seq<T>>,
    outs: Seq<Seq<T>>,
    block_out: Seq<Seq<T>>,
    order: Seq<usize>,
    k: int,
)
    requires
        nets.len() == fed.len() + 1,
        outs.len() == fed.len(),
        nets[0].wf(),
        nets[0].graph().scheduled_by(order),
        forall|j: int|
            0 <= j < fed.len() ==> (#[trigger] nets[j + 1]).ticked(&nets[j], fed[j], outs[j]),
        block.processed(&nets[0], fed.len(), fed, block_out),
        0 <= k <= order.len(),
    ensures
        forall|i: int, j: int|
            0 <= i < k && 0 <= j < fed.len() ==> (#[trigger] nets[j + 1]).latest()[(
            #[trigger] order[i]) as int] == block.block_frame(j)[order[i] as int],
        forall|i: int|
            0 <= i < k ==> heard_by_ticks(nets, fed, #[trigger] order[i] as int) == block.heard(
                order[i] as int,
                fed.len(),
                fed,
            ),
    decreases k,
{
    if k > 0 {
        lemma_ticks_match_block_upto(nets, block, fed, outs, block_out, order, k - 1);
        let g = nets[0].graph();
        nets[0].lemma_wf();
        let v = order[k - 1] as int;
        let by_ticks = heard_by_ticks(nets, fed, v);
        let by_block = block.heard(v, fed.len(), fed);
        assert(block.stepped_block(&nets[0], fed.len(), fed, v));
        assert forall|j: int| 0 <= j < fed.len() implies by_ticks[j] == by_block[j] by {
            lemma_ticks_accumulate(nets, fed, outs, v, j + 1);
            assert forall|c: int| 0 <= c < g.sources[v].len() implies match #[trigger] g.sources[v][c] {
                Port::Local(s, _) => nets[j + 1].latest()[s as int] == block.block_frame(j)[s as int],
                _ => true,
            } by {
                if g.sources[v][c] is Local {
                    let i = lemma_read_stands_before(g, order, k - 1, c);
                    assert(nets[j + 1].latest()[order[i] as int] == block.block_frame(
                        j,
                    )[order[i] as int]);
                }
            }
            lemma_gather_agree(
                g.sources[v],
                nets[j + 1].latest(),
                block.block_frame(j),
                fed[j],
                T::zero_spec(),
            );
        }
        assert(by_ticks =~= by_block);
        assert forall|i: int, j: int| 0 <= i < k && 0 <= j < fed.len() implies (
        #[trigger] nets[j + 1]).latest()[(#[trigger] order[i]) as int] == block.block_frame(
            j,
        )[order[i] as int] by {
            if i == k - 1 {
                lemma_tick_output(nets, fed, outs, v, j);
            }
        }
    }
}

/// Running a network sample by sample gives, on every output and for
/// every sample, what running it on the whole block gives, and leaves
/// every unit responding alike.
///
/// `nets[0]` is the network at the start and `nets[i + 1]` the network
/// after the single sample `i`, for which it was fed `fed[i]` and put out
/// `outs[i]`. `block` is the network after one block of the same frames
/// from the same start, for which it put out the frames `block_out`.
pub proof fn lemma_ticks_match_block<T: Sample, R: Sample>(
    nets: Seq<Net48<T, R>>,
    block: Net48<T, R>,
    fed: Seq<Seq<T>>,
    outs: Seq<Seq<T>>,
    block_out: Seq<Seq<T>>,
)
    requires
        nets.len() == fed.len() + 1,
        outs.len() == fed.len(),
        nets[0].wf(),
        !nets[0].graph().has_cycle(),
        forall|j: int|
            0 <= j < fed.len() ==> (#[trigger] nets[j + 1]).ticked(&nets[j], fed[j], outs[j]),
        block.processed(&nets[0], fed.len(), fed, block_out),
    ensures
        outs == block_out,
        forall|v: int, h: Seq<Seq<T>>|
            0 <= v < nets[0].len() && h.len() > 0 ==> #[trigger] nets[fed.len() as int].unit(
                v,
            ).0.response(h) == block.unit(v).0.response(h),
{
    let g = nets[0].graph();
    let n = fed.len() as int;
    nets[0].lemma_wf();
    let order = lemma_acyclic_scheduled(g);
    lemma_ticks_match_block_upto(nets, block, fed, outs, block_out, order, order.len() as int);
    assert forall|j: int| 0 <= j < n implies outs[j] == block_out[j] by {
        assert(nets[j + 1].ticked(&nets[j], fed[j], outs[j]));
        lemma_same_graph(nets, fed, outs, j + 1);
        assert forall|c: int| 0 <= c < g.output_sources.len() implies match #[trigger] g.output_sources[c] {
            Port::Local(s, _) => nets[j + 1].latest()[s as int] == block.block_frame(j)[s as int],
            _ => true,
        } by {
            assert(g.readable(g.output_sources[c]));
            match g.output_sources[c] {
                Port::Local(s, _) => {
                    let i = lemma_order_complete(g, order, s as int);
                    assert(nets[j + 1].latest()[order[i] as int] == block.block_frame(
                        j,
                    )[order[i] as int]);
                },
                _ => {},
            }
        }
        lemma_gather_agree(
            g.output_sources,
            nets[j + 1].latest(),
            block.block_frame(j),
            fed[j],
            T::zero_spec(),
        );
    }
    assert(outs =~= block_out);
    assert forall|v: int, h: Seq<Seq<T>>| 0 <= v < nets[0].len() && h.len() > 0 implies #[trigger] nets[n].unit(
        v,
    ).0.response(h) == block.unit(v).0.response(h) by {
        let i = lemma_order_complete(g, order, v);
        lemma_ticks_accumulate(nets, fed, outs, v, n);
        assert(block.stepped_block(&nets[0], fed.len(), fed, v));
        let heard = heard_by_ticks(nets, fed, v);
        assert(heard.take(n) =~= heard);
        assert(heard_by_ticks(nets, fed, order[i] as int) == block.heard(
            order[i] as int,
            fed.len(),
            fed,
        ));
    }
}

/// A run of single samples leaves the wiring as it is.
proof fn lemma_same_graph<T: Sample, R: Sample>(
    nets: Seq<Net48<T, R>>,
    fed: Seq<Seq<T>>,
    outs: Seq<Seq<T>>,
    i: int,
)
    requires
        nets.len() == fed.len() + 1,
        outs.len() == fed.len(),
        forall|j: int|
            0 <= j < fed.len() ==> (#[trigger] nets[j + 1]).ticked(&nets[j], fed[j], outs[j]),
        0 <= i <= fed.len(),
    ensures
        nets[i].graph() == nets[0].graph(),
    decreases i,
{
    if i > 0 {
        lemma_same_graph(nets, fed, outs, i - 1);
        assert(nets[i - 1 + 1].ticked(&nets[i - 1], fed[i - 1], outs[i - 1]));
    }
}

/// One sample has one outcome: two networks that both are what a network
/// is one sample on, fed the same, last put out the same frames, put out
/// the same on the network outputs, and hold units that respond alike.
pub proof fn lemma_tick_determined<T: Sample, R: Sample>(
    before: &Net48<T, R>,
    first: &Net48<T, R>,
    second: &Net48<T, R>,
    fed: Seq<T>,
    first_out: Seq<T>,
    second_out: Seq<T>,
)
    requires
        before.wf(),
        first.wf(),
        second.wf(),
        !before.graph().has_cycle(),
        first.ticked(before, fed, first_out),
        second.ticked(before, fed, second_out),
    ensures
        first.latest() == second.latest(),
        first_out == second_out,
        forall|v: int, h: Seq<Seq<T>>|
            0 <= v < before.len() && h.len() > 0 ==> #[trigger] first.unit(v).0.response(h)
                == second.unit(v).0.response(h),
{
    let g = before.graph();
    before.lemma_wf();
    first.lemma_wf();
    second.lemma_wf();
    let order = lemma_acyclic_scheduled(g);
    let f = |v: int, frame: Seq<T>| before.unit(v).0.response(seq![frame]);
    assert forall|v: int| 0 <= v < g.len() implies #[trigger] first.latest()[v] == f(
        v,
        gather(g.sources[v], first.latest(), fed, T::zero_spec()),
    ) by {
        assert(first.stepped(before, fed, v));
    }
    assert forall|v: int| 0 <= v < g.len() implies #[trigger] second.latest()[v] == f(
        v,
        gather(g.sources[v], second.latest(), fed, T::zero_spec()),
    ) by {
        assert(second.stepped(before, fed, v));
    }
    lemma_flow_unique(g, order, f, first.latest(), second.latest(), fed, T::zero_spec());
    assert forall|v: int, h: Seq<Seq<T>>| 0 <= v < before.len() && h.len() > 0 implies #[trigger] first.unit(
        v,
    ).0.response(h) == second.unit(v).0.response(h) by {
        assert(first.stepped(before, fed, v));
        assert(second.stepped(before, fed, v));
    }
}

/// A network has one description at a frequency: two families of
/// descriptors that both describe it, given the same descriptors of its
/// inputs, are the same.
pub proof fn lemma_route_determined<T: Sample, R: Sample>(
    net: &Net48<T, R>,
    input: Seq<Signal<R>>,
    frequency: R,
    first: Seq<Seq<Signal<R>>>,
    first_out: Seq<Signal<R>>,
    second: Seq<Seq<Signal<R>>>,
    second_out: Seq<Signal<R>>,
)
    requires
        net.wf(),
        !net.graph().has_cycle(),
        net.routed(input, frequency, first, first_out),
        net.routed(input, frequency, second, second_out),
    ensures
        first == second,
        first_out == second_out,
{
    let g = net.graph();
    net.lemma_wf();
    let order = lemma_acyclic_scheduled(g);
    let f = |v: int, frame: Seq<Signal<R>>| net.unit(v).0.route_spec(frame, frequency);
    lemma_flow_unique(g, order, f, first, second, input, silent_signal::<R>());
}

/// Two units piped inside a network behave as the second applied to the
/// first: where vertex `a` reads the network inputs, vertex `b` reads `a`
/// and the network outputs read `b`, one sample puts out what `b` makes of
/// what `a` makes of the input, and moves each unit on by the frame it
/// was given.
pub proof fn lemma_pipe_composes<T: Sample, R: Sample>(
    base: Graph,
    before: &Net48<T, R>,
    after: &Net48<T, R>,
    fed: Seq<T>,
    output: Seq<T>,
    a: int,
    b: int,
)
    requires
        before.wf(),
        after.wf(),
        base.wf(),
        0 <= a < base.len(),
        0 <= b < base.len(),
        a != b,
        base.arity[a].0 == base.inputs,
        base.arity[a].1 == base.arity[b].0,
        base.arity[b].1 == base.outputs,
        before.graph() == base.with_piped_input(a).with_pipe(a, b).with_piped_output(b),
        fed.len() == base.inputs,
        after.ticked(before, fed, output),
    ensures
        output == before.unit(b).0.response(seq![before.unit(a).0.response(seq![fed])]),
        forall|h: Seq<Seq<T>>|
            h.len() > 0 ==> #[trigger] after.unit(a).0.response(h) == before.unit(a).0.response(
                seq![fed] + h,
            ),
        forall|h: Seq<Seq<T>>|
            h.len() > 0 ==> #[trigger] after.unit(b).0.response(h) == before.unit(b).0.response(
                seq![before.unit(a).0.response(seq![fed])] + h,
            ),
{
    let g = before.graph();
    after.lemma_wf();
    before.lemma_wf();
    assert(after.stepped(before, fed, a));
    assert(after.stepped(before, fed, b));
    assert(g.arity == base.arity);
    assert(g.len() == base.len());
    assert(a as usize as int == a);
    assert(b as usize as int == b);
    assert(after.unit(a).0.outputs_spec() == g.arity[a].1);
    assert(after.unit(b).0.outputs_spec() == g.arity[b].1);
    assert(after.latest()[a].len() == g.arity[a].1);
    assert(after.latest()[b].len() == g.arity[b].1);
    assert(g.sources[a] == Seq::new(base.arity[a].0, |c: int| Port::Global(c as usize)));
    assert(g.sources[b] == Seq::new(base.arity[b].0, |c: int| Port::Local(a as usize, c as usize)));
    assert(after.frame_into(a, after.latest(), fed) =~= fed);
    assert(after.frame_into(b, after.latest(), fed) =~= after.latest()[a]);
    assert(output =~= after.latest()[b]);
}

/// The wiring in which the first `k` network outputs read the outputs of
/// vertex `s` of the same index, connected one at a time.
pub open spec fn outputs_connected(g: Graph, s: int, k: nat) -> Graph
    decreases k,
{
    if k == 0 {
        g
    } else {
        outputs_connected(g, s, (k - 1) as nat).with_output_source(
            k - 1,
            Port::Local(s as usize, (k - 1) as usize),
        )
    }
}

/// The wiring in which the first `k` inputs of vertex `t` read the
/// outputs of vertex `s` of the same index, connected one at a time.
pub open spec fn inputs_connected(g: Graph, s: int, t: int, k: nat) -> Graph
    decreases k,
{
    if k == 0 {
        g
    } else {
        inputs_connected(g, s, t, (k - 1) as nat).with_source(
            t,
            k - 1,
            Port::Local(s as usize, (k - 1) as usize),
        )
    }
}

/// The wiring in which the first `k` inputs of vertex `t` read the
/// network inputs of the same index, connected one at a time.
pub open spec fn inputs_connected_to_net(g: Graph, t: int, k: nat) -> Graph
    decreases k,
{
    if k == 0 {
        g
    } else {
        inputs_connected_to_net(g, t, (k - 1) as nat).with_source(
            t,
            k - 1,
            Port::Global((k - 1) as usize),
        )
    }
}

proof fn lemma_outputs_connected(g: Graph, s: int, k: nat)
    requires
        k <= g.output_sources.len(),
    ensures
        outputs_connected(g, s, k) == (Graph {
            output_sources: Seq::new(
                g.output_sources.len(),
                |c: int|
                    if c < k {
                        Port::Local(s as usize, c as usize)
                    } else {
                        g.output_sources[c]
                    },
            ),
            ..g
        }),
    decreases k,
{
    let shape = |n: nat|
        Seq::new(
            g.output_sources.len(),
            |c: int|
                if c < n {
                    Port::Local(s as usize, c as usize)
                } else {
                    g.output_sources[c]
                },
        );
    if k == 0 {
        assert(shape(0) =~= g.output_sources);
    } else {
        lemma_outputs_connected(g, s, (k - 1) as nat);
        assert(shape((k - 1) as nat).update(k - 1, Port::Local(s as usize, (k - 1) as usize))
            =~= shape(k));
    }
}

proof fn lemma_inputs_connected(g: Graph, s: int, t: int, k: nat)
    requires
        0 <= t < g.sources.len(),
        k <= g.sources[t].len(),
    ensures
        inputs_connected(g, s, t, k) == (Graph {
            sources: g.sources.update(
                t,
                Seq::new(
                    g.sources[t].len(),
                    |c: int|
                        if c < k {
                            Port::Local(s as usize, c as usize)
                        } else {
                            g.sources[t][c]
                        },
                ),
            ),
            ..g
        }),
    decreases k,
{
    let shape = |n: nat|
        Seq::new(
            g.sources[t].len(),
            |c: int|
                if c < n {
                    Port::Local(s as usize, c as usize)
                } else {
                    g.sources[t][c]
                },
        );
    if k == 0 {
        assert(shape(0) =~= g.sources[t]);
        assert(g.sources.update(t, shape(0)) =~= g.sources);
    } else {
        lemma_inputs_connected(g, s, t, (k - 1) as nat);
        let earlier = g.sources.update(t, shape((k - 1) as nat));
        assert(earlier[t].update(k - 1, Port::Local(s as usize, (k - 1) as usize)) =~= shape(k));
        assert(earlier.update(t, shape(k)) =~= g.sources.update(t, shape(k)));
    }
}

proof fn lemma_inputs_connected_to_net(g: Graph, t: int, k: nat)
    requires
        0 <= t < g.sources.len(),
        k <= g.sources[t].len(),
    ensures
        inputs_connected_to_net(g, t, k) == (Graph {
            sources: g.sources.update(
                t,
                Seq::new(
                    g.sources[t].len(),
                    |c: int|
                        if c < k {
                            Port::Global(c as usize)
                        } else {
                            g.sources[t][c]
                        },
                ),
            ),
            ..g
        }),
    decreases k,
{
    let shape = |n: nat|
        Seq::new(
            g.sources[t].len(),
            |c: int|
                if c < n {
                    Port::Global(c as usize)
                } else {
                    g.sources[t][c]
                },
        );
    if k == 0 {
        assert(shape(0) =~= g.sources[t]);
        assert(g.sources.update(t, shape(0)) =~= g.sources);
    } else {
        lemma_inputs_connected_to_net(g, t, (k - 1) as nat);
        let earlier = g.sources.update(t, shape((k - 1) as nat));
        assert(earlier[t].update(k - 1, Port::Global((k - 1) as usize)) =~= shape(k));
        assert(earlier.update(t, shape(k)) =~= g.sources.update(t, shape(k)));
    }
}

/// Growing a chain by a unit wires the network as adding the unit and
/// then connecting, one at a time and by rising index, each network
/// output to the unit's output and each of the unit's inputs to the output
/// of the unit before it, or to the network input where it is the first.
pub proof fn lemma_chain_is_add_and_connect(g: Graph, channels: nat)
    requires
        g.wf(),
        g.outputs == channels,
    ensures
        g.chained(channels) == ({
            let id = g.len() as int;
            let wired = outputs_connected(g.with_vertex(channels, channels), id, channels);
            if id > 0 {
                inputs_connected(wired, id - 1, id, channels)
            } else {
                inputs_connected_to_net(wired, id, channels)
            }
        }),
{
    let id = g.len() as int;
    let added = g.with_vertex(channels, channels);
    lemma_outputs_connected(added, id, channels);
    let wired = outputs_connected(added, id, channels);
    assert(wired.output_sources =~= added.with_piped_output(id).output_sources);
    assert(wired == added.with_piped_output(id));
    if id > 0 {
        lemma_inputs_connected(wired, id - 1, id, channels);
        assert(inputs_connected(wired, id - 1, id, channels).sources =~~= wired.with_pipe(
            id - 1,
            id,
        ).sources);
    } else {
        lemma_inputs_connected_to_net(wired, id, channels);
        assert(inputs_connected_to_net(wired, id, channels).sources =~~= wired.with_piped_input(
            id,
        ).sources);
    }
}

} // verus!
