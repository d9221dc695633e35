//! The mathematical model of a network's wiring, and what it means for a
//! schedule to respect it.

use vstd::prelude::*;
use crate::port::Port;

verus! {

/// The wiring of a network, as plain mathematical data.
pub struct Graph {
    /// Number of inputs of the network.
    pub inputs: nat,
    /// Number of outputs of the network.
    pub outputs: nat,
    /// For each vertex, its number of inputs and its number of outputs.
    pub arity: Seq<(nat, nat)>,
    /// For each vertex and each of its inputs, the port the input reads.
    pub sources: Seq<Seq<Port>>,
    /// For each output of the network, the port it reads.
    pub output_sources: Seq<Port>,
}

impl Graph {
    /// Number of vertices.
    pub open spec fn len(self) -> nat {
        self.arity.len()
    }

    /// The port can be read: it names an existing output of an existing
    /// vertex, an existing input of the network, or silence.
    pub open spec fn readable(self, p: Port) -> bool {
        match p {
            Port::Local(s, q) => s < self.len() && q < self.arity[s as int].1,
            Port::Global(q) => q < self.inputs,
            Port::Zero => true,
        }
    }

    /// Every table has the size the arities call for, and every source
    /// can be read.
    pub open spec fn wf(self) -> bool {
        &&& self.sources.len() == self.len()
        &&& self.output_sources.len() == self.outputs
        &&& forall|v: int|
            0 <= v < self.len() ==> (#[trigger] self.sources[v]).len() == self.arity[v].0
        &&& forall|v: int, c: int|
            0 <= v < self.len() && 0 <= c < self.sources[v].len() ==> self.readable(
                #[trigger] self.sources[v][c],
            )
        &&& forall|c: int|
            0 <= c < self.outputs ==> self.readable(#[trigger] self.output_sources[c])
    }

    /// The graph with no vertices and every output silent.
    pub open spec fn empty(inputs: nat, outputs: nat) -> Graph {
        Graph {
            inputs,
            outputs,
            arity: Seq::empty(),
            sources: Seq::empty(),
            output_sources: Seq::new(outputs, |c: int| Port::Zero),
        }
    }

    /// The graph with one more vertex, all of whose inputs are silent.
    pub open spec fn with_vertex(self, inputs: nat, outputs: nat) -> Graph {
        Graph {
            arity: self.arity.push((inputs, outputs)),
            sources: self.sources.push(Seq::new(inputs, |c: int| Port::Zero)),
            ..self
        }
    }

    /// The graph in which input `c` of vertex `t` reads `p`.
    pub open spec fn with_source(self, t: int, c: int, p: Port) -> Graph {
        Graph { sources: self.sources.update(t, self.sources[t].update(c, p)), ..self }
    }

    /// The graph in which output `c` of the network reads `p`.
    pub open spec fn with_output_source(self, c: int, p: Port) -> Graph {
        Graph { output_sources: self.output_sources.update(c, p), ..self }
    }

    /// The graph in which every input of vertex `t` reads the network
    /// input of the same index.
    pub open spec fn with_piped_input(self, t: int) -> Graph {
        Graph {
            sources: self.sources.update(
                t,
                Seq::new(self.arity[t].0, |c: int| Port::Global(c as usize)),
            ),
            ..self
        }
    }

    /// The graph in which every output of the network reads the output of
    /// vertex `s` of the same index.
    pub open spec fn with_piped_output(self, s: int) -> Graph {
        Graph {
            output_sources: Seq::new(self.outputs, |c: int| Port::Local(s as usize, c as usize)),
            ..self
        }
    }

    /// The graph in which every input of vertex `t` reads the output of
    /// vertex `s` of the same index.
    pub open spec fn with_pipe(self, s: int, t: int) -> Graph {
        Graph {
            sources: self.sources.update(
                t,
                Seq::new(self.arity[t].0, |c: int| Port::Local(s as usize, c as usize)),
            ),
            ..self
        }
    }

    /// The graph of a chain that has grown by one vertex of `channels`
    /// inputs and outputs: the new vertex feeds the network outputs and
    /// reads the vertex before it, or the network inputs where it is the
    /// first.
    pub open spec fn chained(self, channels: nat) -> Graph {
        let id = self.len() as int;
        let grown = self.with_vertex(channels, channels).with_piped_output(id);
        if id > 0 {
            grown.with_pipe(id - 1, id)
        } else {
            grown.with_piped_input(id)
        }
    }

    /// Vertex `t` reads an output of vertex `s`.
    pub open spec fn depends(self, t: int, s: int) -> bool {
        exists|c: int|
            0 <= c < self.sources[t].len() && #[trigger] self.reads_vertex(t, c, s)
    }

    /// Input `c` of vertex `t` reads an output of vertex `s`.
    pub open spec fn reads_vertex(self, t: int, c: int, s: int) -> bool {
        match self.sources[t][c] {
            Port::Local(v, _) => v == s,
            _ => false,
        }
    }

    /// `order` lists every vertex once, each one after all the vertices it
    /// reads.
    pub open spec fn scheduled_by(self, order: Seq<usize>) -> bool {
        &&& order.len() == self.len()
        &&& order.no_duplicates()
        &&& forall|i: int| 0 <= i < order.len() ==> (#[trigger] order[i]) < self.len()
        &&& forall|i: int, j: int|
            0 <= i < order.len() && 0 <= j < order.len() && self.depends(
                #[trigger] order[j] as int,
                #[trigger] order[i] as int,
            ) ==> i < j
    }

    /// `path` walks along dependencies and comes back to where it began.
    pub open spec fn is_cycle(self, path: Seq<int>) -> bool {
        &&& path.len() >= 2
        &&& path[0] == path[path.len() - 1]
        &&& forall|k: int| 0 <= k < path.len() ==> 0 <= #[trigger] path[k] < self.len()
        &&& forall|k: int|
            0 <= k < path.len() - 1 ==> self.depends(#[trigger] path[k], path[k + 1])
    }

    /// Some vertices read each other in a circle.
    pub open spec fn has_cycle(self) -> bool {
        exists|path: Seq<int>| self.is_cycle(path)
    }
}

/// What a reader of port `p` sees, given what every vertex last produced
/// and what the network was fed. Silence reads as `zero`.
pub open spec fn port_value<X>(p: Port, produced: Seq<Seq<X>>, fed: Seq<X>, zero: X) -> X {
    match p {
        Port::Local(s, q) => produced[s as int][q as int],
        Port::Global(q) => fed[q as int],
        Port::Zero => zero,
    }
}

/// What the readers of `sources` see, one value per source.
pub open spec fn gather<X>(sources: Seq<Port>, produced: Seq<Seq<X>>, fed: Seq<X>, zero: X) -> Seq<
    X,
> {
    Seq::new(sources.len(), |c: int| port_value(sources[c], produced, fed, zero))
}

/// Replacing what a vertex produced changes nothing for readers that do
/// not read that vertex.
pub proof fn lemma_gather_update<X>(
    sources: Seq<Port>,
    produced: Seq<Seq<X>>,
    fed: Seq<X>,
    zero: X,
    v: int,
    frame: Seq<X>,
)
    requires
        0 <= v < produced.len(),
        forall|c: int|
            0 <= c < sources.len() ==> match #[trigger] sources[c] {
                Port::Local(s, _) => s != v && s < produced.len(),
                _ => true,
            },
    ensures
        gather(sources, produced.update(v, frame), fed, zero) == gather(sources, produced, fed, zero),
{
    assert forall|c: int| 0 <= c < sources.len() implies port_value(
        #[trigger] sources[c],
        produced.update(v, frame),
        fed,
        zero,
    ) == port_value(sources[c], produced, fed, zero) by {}
    assert(gather(sources, produced.update(v, frame), fed, zero) =~= gather(
        sources,
        produced,
        fed,
        zero,
    ));
}

/// Readers see the same where the vertices they read produced the same.
pub proof fn lemma_gather_agree<X>(
    sources: Seq<Port>,
    first: Seq<Seq<X>>,
    second: Seq<Seq<X>>,
    fed: Seq<X>,
    zero: X,
)
    requires
        forall|c: int|
            0 <= c < sources.len() ==> match #[trigger] sources[c] {
                Port::Local(s, _) => first[s as int] == second[s as int],
                _ => true,
            },
    ensures
        gather(sources, first, fed, zero) == gather(sources, second, fed, zero),
{
    assert(gather(sources, first, fed, zero) =~= gather(sources, second, fed, zero));
}

} // verus!
