//! Network of units connected together.

use vstd::prelude::*;
use crate::graph::{Graph, gather, lemma_gather_update, port_value};
use crate::port::{Edge, NodeIndex, Port, PortIndex, edge};
use crate::sample::Sample;
use crate::schedule::{
    eager, externals_done, lemma_order_complete, lemma_pending_fresh, lemma_place_bound,
    lemma_placed_settled, lemma_reads_only_earlier, lemma_scheduled_acyclic, lemma_search_stuck,
    new_row, pending, place, rows, search_inv, settled, tick_off,
};
use crate::signal::{Signal, Tag, new_signal_frame, silent_signal};
use crate::unit::{
    AudioUnit48, MAX_BUFFER_SIZE, Owned, Silence, copy_block, fill_block, frame, frames, holds,
    new_block, new_frame, same_shape,
};

verus! {

/// Why a network could not be run.
#[derive(Clone, Copy, Debug, PartialEq, Eq, Structural)]
pub enum NetError {
    /// Some vertices read each other in a circle, so no evaluation order exists.
    Cycle,
}

/// Individual units are vertices in the graph.
#[verifier::reject_recursive_types(T)]
#[verifier::reject_recursive_types(R)]
pub struct Vertex48<T: Sample, R: Sample> {
    /// The unit.
    pub unit: Owned<Box<dyn AudioUnit48<T, R>>>,
    /// Edges connecting into this vertex, one for each input.
    pub source: Vec<Edge>,
    /// Input block, one channel for each input.
    pub input: Vec<Vec<T>>,
    /// Output block, one channel for each output.
    pub output: Vec<Vec<T>>,
    /// Input frame for single samples.
    pub tick_input: Vec<T>,
    /// Output frame for single samples.
    pub tick_output: Vec<T>,
    /// Index of this vertex in its network.
    pub id: NodeIndex,
}

impl<T: Sample, R: Sample> Vertex48<T, R> {
    /// The edge table and the buffers have the sizes the unit declares, and
    /// each edge leads into the slot that holds it.
    pub open spec fn wf(&self) -> bool {
        &&& self.unit.0.valid()
        &&& self.source.len() == self.unit.0.inputs_spec()
        &&& self.input.len() == self.unit.0.inputs_spec()
        &&& self.tick_input.len() == self.unit.0.inputs_spec()
        &&& self.output.len() == self.unit.0.outputs_spec()
        &&& self.tick_output.len() == self.unit.0.outputs_spec()
        &&& forall|c: int|
            0 <= c < self.input.len() ==> (#[trigger] self.input@[c]).len() == MAX_BUFFER_SIZE
        &&& forall|c: int|
            0 <= c < self.output.len() ==> (#[trigger] self.output@[c]).len() == MAX_BUFFER_SIZE
        &&& forall|c: int|
            0 <= c < self.source.len() ==> (#[trigger] self.source@[c]).target == Port::Local(
                self.id,
                c as usize,
            )
    }

    /// Every buffer holds silence.
    pub open spec fn silent(&self) -> bool {
        &&& self.tick_input@ == Seq::new(self.tick_input.len() as nat, |c: int| T::zero_spec())
        &&& self.tick_output@ == Seq::new(self.tick_output.len() as nat, |c: int| T::zero_spec())
        &&& forall|c: int|
            0 <= c < self.input.len() ==> (#[trigger] self.input@[c])@ == Seq::new(
                MAX_BUFFER_SIZE as nat,
                |j: int| T::zero_spec(),
            )
        &&& forall|c: int|
            0 <= c < self.output.len() ==> (#[trigger] self.output@[c])@ == Seq::new(
                MAX_BUFFER_SIZE as nat,
                |j: int| T::zero_spec(),
            )
    }

    /// The ports the inputs read.
    pub open spec fn sources(&self) -> Seq<Port> {
        Seq::new(self.source.len() as nat, |c: int| self.source@[c].source)
    }

    /// Create a vertex around a silent unit of the given arity, with every
    /// input unconnected and every buffer silent.
    pub fn new(id: NodeIndex, inputs: usize, outputs: usize) -> (vertex: Self)
        ensures
            vertex.wf(),
            vertex.id == id,
            vertex.unit.0.inputs_spec() == inputs,
            vertex.unit.0.outputs_spec() == outputs,
            vertex.sources() == Seq::new(inputs as nat, |c: int| Port::Zero),
            vertex.silent(),
    {
        let unit: Box<dyn AudioUnit48<T, R>> = Box::new(Silence { inputs, outputs });
        let held = Owned(unit);
        Self::around(id, held)
    }

    /// Create a vertex around `unit`, with every input unconnected and
    /// every buffer silent.
    pub fn around(id: NodeIndex, unit: Owned<Box<dyn AudioUnit48<T, R>>>) -> (vertex: Self)
        requires
            unit.0.valid(),
        ensures
            vertex.wf(),
            vertex.id == id,
            vertex.unit == unit,
            vertex.sources() == Seq::new(unit.0.inputs_spec(), |c: int| Port::Zero),
            vertex.silent(),
    {
        let inputs = unit.0.inputs();
        let outputs = unit.0.outputs();
        let mut source: Vec<Edge> = Vec::new();
        let mut c: usize = 0;
        while c < inputs
            invariant
                c <= inputs,
                source.len() == c,
                forall|k: int|
                    0 <= k < c ==> #[trigger] source@[k] == (Edge {
                        source: Port::Zero,
                        target: Port::Local(id, k as usize),
                    }),
            decreases inputs - c,
        {
            source.push(edge(Port::Zero, Port::Local(id, c)));
            c += 1;
        }
        let vertex = Vertex48 {
            unit,
            source,
            input: new_block(inputs),
            output: new_block(outputs),
            tick_input: new_frame(inputs),
            tick_output: new_frame(outputs),
            id,
        };
        assert(vertex.sources() =~= Seq::new(inputs as nat, |c: int| Port::Zero));
        vertex
    }

    /// Number of inputs.
    pub fn inputs(&self) -> (n: usize)
        ensures
            n == self.input.len(),
    {
        self.input.len()
    }

    /// Number of outputs.
    pub fn outputs(&self) -> (n: usize)
        ensures
            n == self.output.len(),
    {
        self.output.len()
    }
}

/// Network unit. It owns other units and maintains the connections
/// between them. Its outputs read outputs of its units or its own inputs.
#[verifier::reject_recursive_types(T)]
#[verifier::reject_recursive_types(R)]
pub struct Net48<T: Sample, R: Sample> {
    /// Number of inputs of the network.
    inputs: usize,
    /// Number of outputs of the network.
    outputs: usize,
    /// Sources of the network outputs.
    output_edge: Vec<Edge>,
    /// Vertices of the graph.
    vertex: Vec<Vertex48<T, R>>,
    /// Order in which the vertices are evaluated.
    order: Vec<NodeIndex>,
    /// Whether `order` fits the present wiring.
    ordered: bool,
}

impl<T: Sample, R: Sample> Net48<T, R> {
    /// Number of vertices.
    pub closed spec fn len(&self) -> nat {
        self.vertex.len() as nat
    }

    /// The wiring.
    pub closed spec fn graph(&self) -> Graph {
        Graph {
            inputs: self.inputs as nat,
            outputs: self.outputs as nat,
            arity: Seq::new(
                self.vertex.len() as nat,
                |v: int| (self.vertex@[v].source.len() as nat, self.vertex@[v].tick_output.len() as nat),
            ),
            sources: Seq::new(self.vertex.len() as nat, |v: int| self.vertex@[v].sources()),
            output_sources: Seq::new(
                self.output_edge.len() as nat,
                |c: int| self.output_edge@[c].source,
            ),
        }
    }

    /// The unit of vertex `v`.
    pub closed spec fn unit(&self, v: int) -> Owned<Box<dyn AudioUnit48<T, R>>> {
        self.vertex@[v].unit
    }

    /// The frame each vertex put out last.
    pub closed spec fn latest(&self) -> Seq<Seq<T>> {
        Seq::new(self.vertex.len() as nat, |v: int| self.vertex@[v].tick_output@)
    }

    /// Sample `j` of the block each vertex put out last.
    pub closed spec fn block_frame(&self, j: int) -> Seq<Seq<T>> {
        Seq::new(self.vertex.len() as nat, |v: int| frame(self.vertex@[v].output@, j))
    }

    /// The evaluation order is known to fit the wiring.
    pub closed spec fn is_ordered(&self) -> bool {
        self.ordered
    }

    /// The tables have the sizes the arities call for, every source can be
    /// read, and a cached evaluation order fits the wiring.
    pub closed spec fn wf(&self) -> bool {
        &&& forall|v: int|
            0 <= v < self.vertex.len() ==> (#[trigger] self.vertex@[v]).wf() && self.vertex@[v].id
                == v
        &&& self.output_edge.len() == self.outputs
        &&& forall|c: int|
            0 <= c < self.output_edge.len() ==> (#[trigger] self.output_edge@[c]).target
                == Port::Global(c as usize)
        &&& self.graph().wf()
        &&& self.ordered ==> self.graph().scheduled_by(self.order@)
    }

    /// Both networks hold the same units, and the units last put out the
    /// same frames.
    pub open spec fn same_units(&self, other: &Self) -> bool {
        &&& self.len() == other.len()
        &&& self.latest() == other.latest()
        &&& forall|v: int| 0 <= v < self.len() ==> #[trigger] self.unit(v) == other.unit(v)
    }

    /// A well-formed network has a well-formed wiring, with one unit of
    /// matching arity per vertex.
    pub proof fn lemma_wf(&self)
        requires
            self.wf(),
        ensures
            self.graph().wf(),
            self.graph().len() == self.len(),
            self.latest().len() == self.len(),
            self.graph().inputs <= usize::MAX,
            self.graph().outputs <= usize::MAX,
            self.len() <= usize::MAX,
            forall|j: int| (#[trigger] self.block_frame(j)).len() == self.len(),
            forall|v: int|
                0 <= v < self.len() ==> (#[trigger] self.graph().arity[v]).0 <= usize::MAX
                    && self.graph().arity[v].1 <= usize::MAX,
            forall|v: int|
                0 <= v < self.len() ==> (#[trigger] self.unit(v)).0.inputs_spec()
                    == self.graph().arity[v].0 && self.unit(v).0.outputs_spec()
                    == self.graph().arity[v].1 && self.latest()[v].len() == self.graph().arity[v].1,
    {
        assert forall|v: int| 0 <= v < self.len() implies (#[trigger] self.unit(v)).0.inputs_spec()
            == self.graph().arity[v].0 && self.unit(v).0.outputs_spec() == self.graph().arity[v].1
            && self.latest()[v].len() == self.graph().arity[v].1 by {
            assert(self.vertex@[v].wf());
        }
    }

    /// Create a network with the given number of inputs and outputs, which
    /// stay fixed. It has no vertices, and every output is silent.
    pub fn new(inputs: usize, outputs: usize) -> (net: Self)
        ensures
            net.wf(),
            net.len() == 0,
            net.graph() == Graph::empty(inputs as nat, outputs as nat),
    {
        let mut net = Net48 {
            inputs,
            outputs,
            output_edge: Vec::new(),
            vertex: Vec::new(),
            order: Vec::new(),
            ordered: true,
        };
        let mut channel: usize = 0;
        while channel < outputs
            invariant
                channel <= outputs,
                net.inputs == inputs,
                net.outputs == outputs,
                net.vertex.len() == 0,
                net.order.len() == 0,
                net.ordered,
                net.output_edge.len() == channel,
                forall|c: int|
                    0 <= c < channel ==> #[trigger] net.output_edge@[c] == (Edge {
                        source: Port::Zero,
                        target: Port::Global(c as usize),
                    }),
            decreases outputs - channel,
        {
            net.output_edge.push(edge(Port::Zero, Port::Global(channel)));
            channel += 1;
        }
        assert(net.graph().arity =~= Seq::empty());
        assert(net.graph().sources =~= Seq::empty());
        assert(net.graph().output_sources =~= Seq::new(outputs as nat, |c: int| Port::Zero));
        net
    }

    /// Number of inputs of the network.
    pub fn inputs(&self) -> (n: usize)
        ensures
            n == self.graph().inputs,
    {
        self.inputs
    }

    /// Number of outputs of the network.
    pub fn outputs(&self) -> (n: usize)
        ensures
            n == self.graph().outputs,
    {
        self.outputs
    }

    /// Number of vertices.
    pub fn size(&self) -> (n: usize)
        ensures
            n == self.len(),
    {
        self.vertex.len()
    }

    /// Number of inputs of vertex `v`.
    pub fn inputs_of(&self, v: NodeIndex) -> (n: usize)
        requires
            self.wf(),
            v < self.len(),
        ensures
            n == self.graph().arity[v as int].0,
    {
        assert(self.vertex@[v as int].wf());
        self.vertex[v].inputs()
    }

    /// Number of outputs of vertex `v`.
    pub fn outputs_of(&self, v: NodeIndex) -> (n: usize)
        requires
            self.wf(),
            v < self.len(),
        ensures
            n == self.graph().arity[v as int].1,
    {
        assert(self.vertex@[v as int].wf());
        self.vertex[v].outputs()
    }

    /// Add a new unit to the network and return its index. Indices are
    /// consecutive numbers starting from zero. Every input of the unit
    /// starts unconnected.
    pub fn add(&mut self, unit: Box<dyn AudioUnit48<T, R>>) -> (id: NodeIndex)
        requires
            old(self).wf(),
            unit.valid(),
        ensures
            ({
                let held = Owned(unit);
                final(self).added(old(self), held)
            }),
            id == old(self).len(),
    {
        let held = Owned(unit);
        self.add_owned(held)
    }

    /// `self` is `before` with one more vertex around `unit`, its inputs
    /// unconnected and its last frame silent.
    pub open spec fn added(&self, before: &Self, unit: Owned<Box<dyn AudioUnit48<T, R>>>) -> bool {
        &&& self.wf()
        &&& self.len() == before.len() + 1
        &&& self.graph() == before.graph().with_vertex(
            unit.0.inputs_spec(),
            unit.0.outputs_spec(),
        )
        &&& self.unit(before.len() as int) == unit
        &&& forall|v: int| 0 <= v < before.len() ==> #[trigger] self.unit(v) == before.unit(v)
        &&& self.latest() == before.latest().push(
            Seq::new(unit.0.outputs_spec(), |c: int| T::zero_spec()),
        )
        &&& !self.is_ordered()
    }

    /// Add a unit that is already held for a vertex.
    pub fn add_owned(&mut self, unit: Owned<Box<dyn AudioUnit48<T, R>>>) -> (id: NodeIndex)
        requires
            old(self).wf(),
            unit.0.valid(),
        ensures
            final(self).added(old(self), unit),
            id == old(self).len(),
    {
        let id = self.vertex.len();
        let vertex = Vertex48::around(id, unit);
        self.vertex.push(vertex);
        self.ordered = false;
        proof {
            let g = old(self).graph().with_vertex(unit.0.inputs_spec(), unit.0.outputs_spec());
            assert(self.graph().sources =~~= g.sources);
            assert(self.graph().arity =~~= g.arity);
            assert(self.graph().output_sources =~~= g.output_sources);
            assert(self.latest() =~~= old(self).latest().push(
                Seq::new(unit.0.outputs_spec(), |c: int| T::zero_spec()),
            ));
            assert forall|v: int, c: int|
                0 <= v < g.len() && 0 <= c < g.sources[v].len() implies g.readable(
                #[trigger] g.sources[v][c],
            ) by {
                if v < old(self).len() {
                    assert(old(self).graph().readable(old(self).graph().sources[v][c]));
                }
            }
            assert forall|c: int| 0 <= c < g.outputs implies g.readable(
                #[trigger] g.output_sources[c],
            ) by {
                assert(old(self).graph().readable(old(self).graph().output_sources[c]));
            }
        }
        id
    }

    /// `self` is `before` rewired to `graph`: the units and what they last
    /// put out are the same, and the evaluation order is to be found anew.
    pub open spec fn rewired(&self, before: &Self, graph: Graph) -> bool {
        &&& self.wf()
        &&& self.graph() == graph
        &&& self.same_units(before)
        &&& !self.is_ordered()
    }

    /// Overwrite the edge into input `target_port` of vertex `target`.
    fn set_source(&mut self, target: NodeIndex, target_port: PortIndex, e: Edge)
        requires
            old(self).wf(),
            target < old(self).len(),
            target_port < old(self).graph().arity[target as int].0,
            old(self).graph().readable(e.source),
            e.target == Port::Local(target, target_port),
        ensures
            final(self).rewired(
                old(self),
                old(self).graph().with_source(target as int, target_port as int, e.source),
            ),
    {
        assert(old(self).vertex@[target as int].wf());
        self.vertex[target].source[target_port] = e;
        self.ordered = false;
        proof {
            let g = old(self).graph().with_source(target as int, target_port as int, e.source);
            assert forall|v: int| 0 <= v < self.vertex.len() implies (#[trigger] self.vertex@[v]).wf()
                && self.vertex@[v].id == v by {
                assert(old(self).vertex@[v].wf());
            }
            assert forall|v: int| 0 <= v < self.vertex.len() implies #[trigger] self.graph().sources[v]
                =~= g.sources[v] by {}
            assert(self.graph().sources =~= g.sources);
            assert(self.graph().arity =~= g.arity);
            assert(self.graph().output_sources =~= g.output_sources);
            assert(self.latest() =~= old(self).latest());
            assert forall|v: int, c: int|
                0 <= v < g.len() && 0 <= c < g.sources[v].len() implies g.readable(
                #[trigger] g.sources[v][c],
            ) by {
                if v != target || c != target_port {
                    assert(old(self).graph().readable(old(self).graph().sources[v][c]));
                }
            }
            assert forall|c: int| 0 <= c < g.outputs implies g.readable(
                #[trigger] g.output_sources[c],
            ) by {
                assert(old(self).graph().readable(old(self).graph().output_sources[c]));
            }
        }
    }

    /// Overwrite the edge into output `global_output` of the network.
    fn set_output_source(&mut self, global_output: PortIndex, e: Edge)
        requires
            old(self).wf(),
            global_output < old(self).graph().outputs,
            old(self).graph().readable(e.source),
            e.target == Port::Global(global_output),
        ensures
            final(self).rewired(
                old(self),
                old(self).graph().with_output_source(global_output as int, e.source),
            ),
    {
        self.output_edge[global_output] = e;
        self.ordered = false;
        proof {
            let g = old(self).graph().with_output_source(global_output as int, e.source);
            assert(self.graph().sources =~= g.sources);
            assert(self.graph().arity =~= g.arity);
            assert(self.graph().output_sources =~= g.output_sources);
            assert(self.latest() =~= old(self).latest());
            assert forall|v: int, c: int|
                0 <= v < g.len() && 0 <= c < g.sources[v].len() implies g.readable(
                #[trigger] g.sources[v][c],
            ) by {
                assert(old(self).graph().readable(old(self).graph().sources[v][c]));
            }
            assert forall|c: int| 0 <= c < g.outputs implies g.readable(
                #[trigger] g.output_sources[c],
            ) by {
                if c != global_output {
                    assert(old(self).graph().readable(old(self).graph().output_sources[c]));
                }
            }
        }
    }

    /// Connect the output (`source`, `source_port`) to the input
    /// (`target`, `target_port`).
    pub fn connect(
        &mut self,
        source: NodeIndex,
        source_port: PortIndex,
        target: NodeIndex,
        target_port: PortIndex,
    )
        requires
            old(self).wf(),
            target < old(self).len(),
            target_port < old(self).graph().arity[target as int].0,
            old(self).graph().readable(Port::Local(source, source_port)),
        ensures
            final(self).rewired(
                old(self),
                old(self).graph().with_source(
                    target as int,
                    target_port as int,
                    Port::Local(source, source_port),
                ),
            ),
    {
        self.set_source(
            target,
            target_port,
            edge(Port::Local(source, source_port), Port::Local(target, target_port)),
        );
    }

    /// Connect the input (`target`, `target_port`) to the network input
    /// `global_input`.
    pub fn connect_input(
        &mut self,
        global_input: PortIndex,
        target: NodeIndex,
        target_port: PortIndex,
    )
        requires
            old(self).wf(),
            target < old(self).len(),
            target_port < old(self).graph().arity[target as int].0,
            global_input < old(self).graph().inputs,
        ensures
            final(self).rewired(
                old(self),
                old(self).graph().with_source(
                    target as int,
                    target_port as int,
                    Port::Global(global_input),
                ),
            ),
    {
        self.set_source(
            target,
            target_port,
            edge(Port::Global(global_input), Port::Local(target, target_port)),
        );
    }

    /// Pipe the network inputs to vertex `target`, which must have as many
    /// inputs as the network.
    pub fn pipe_input(&mut self, target: NodeIndex)
        requires
            old(self).wf(),
            target < old(self).len(),
            old(self).graph().arity[target as int].0 == old(self).graph().inputs,
        ensures
            final(self).rewired(old(self), old(self).graph().with_piped_input(target as int)),
    {
        self.ordered = false;
        assert(self.graph() == old(self).graph());
        assert(self.latest() == old(self).latest());
        let ghost g = old(self).graph();
        let mut i: usize = 0;
        while i < self.inputs
            invariant
                i <= self.inputs,
                self.inputs == g.inputs,
                self.wf(),
                !self.ordered,
                self.same_units(old(self)),
                target < self.len(),
                g.arity[target as int].0 == g.inputs,
                self.graph().inputs == g.inputs,
                self.graph().outputs == g.outputs,
                self.graph().arity == g.arity,
                self.graph().output_sources == g.output_sources,
                self.graph().sources.len() == g.sources.len(),
                self.graph().sources[target as int].len() == g.inputs,
                forall|v: int|
                    0 <= v < g.sources.len() && v != target ==> #[trigger] self.graph().sources[v]
                        == g.sources[v],
                forall|c: int|
                    0 <= c < i ==> #[trigger] self.graph().sources[target as int][c]
                        == Port::Global(c as usize),
            decreases self.inputs - i,
        {
            self.set_source(target, i, edge(Port::Global(i), Port::Local(target, i)));
            i += 1;
        }
        assert(self.graph().sources =~~= g.with_piped_input(target as int).sources);
    }

    /// Connect the output (`source`, `source_port`) to the network output
    /// `global_output`.
    pub fn connect_output(
        &mut self,
        source: NodeIndex,
        source_port: PortIndex,
        global_output: PortIndex,
    )
        requires
            old(self).wf(),
            global_output < old(self).graph().outputs,
            old(self).graph().readable(Port::Local(source, source_port)),
        ensures
            final(self).rewired(
                old(self),
                old(self).graph().with_output_source(
                    global_output as int,
                    Port::Local(source, source_port),
                ),
            ),
    {
        self.set_output_source(
            global_output,
            edge(Port::Local(source, source_port), Port::Global(global_output)),
        );
    }

    /// Pipe the outputs of vertex `source` to the network outputs. The
    /// vertex must have as many outputs as the network.
    pub fn pipe_output(&mut self, source: NodeIndex)
        requires
            old(self).wf(),
            source < old(self).len(),
            old(self).graph().arity[source as int].1 == old(self).graph().outputs,
        ensures
            final(self).rewired(old(self), old(self).graph().with_piped_output(source as int)),
    {
        self.ordered = false;
        assert(self.graph() == old(self).graph());
        assert(self.latest() == old(self).latest());
        let ghost g = old(self).graph();
        let mut i: usize = 0;
        while i < self.outputs
            invariant
                i <= self.outputs,
                self.outputs == g.outputs,
                self.wf(),
                !self.ordered,
                self.same_units(old(self)),
                source < self.len(),
                g.arity[source as int].1 == g.outputs,
                self.graph().inputs == g.inputs,
                self.graph().outputs == g.outputs,
                self.graph().arity == g.arity,
                self.graph().sources == g.sources,
                self.graph().output_sources.len() == g.outputs,
                forall|c: int|
                    0 <= c < i ==> #[trigger] self.graph().output_sources[c] == Port::Local(
                        source,
                        c as usize,
                    ),
            decreases self.outputs - i,
        {
            proof {
                self.lemma_wf();
            }
            self.set_output_source(i, edge(Port::Local(source, i), Port::Global(i)));
            i += 1;
        }
        assert(self.graph().output_sources =~~= g.with_piped_output(source as int).output_sources);
    }

    /// Add an arbitrary edge to the network. An edge into a vertex
    /// replaces the edge into that input, an edge into the network's
    /// outputs replaces the edge into that output, and an edge into
    /// nothing changes no wiring.
    pub fn join(&mut self, edge: Edge)
        requires
            old(self).wf(),
            old(self).graph().readable(edge.source),
            match edge.target {
                Port::Global(global_output) => global_output < old(self).graph().outputs,
                Port::Local(target, target_port) => target < old(self).len() && target_port < old(
                    self,
                ).graph().arity[target as int].0,
                Port::Zero => true,
            },
        ensures
            final(self).rewired(
                old(self),
                match edge.target {
                    Port::Global(global_output) => old(self).graph().with_output_source(
                        global_output as int,
                        edge.source,
                    ),
                    Port::Local(target, target_port) => old(self).graph().with_source(
                        target as int,
                        target_port as int,
                        edge.source,
                    ),
                    Port::Zero => old(self).graph(),
                },
            ),
    {
        match edge.target {
            Port::Global(global_output) => self.set_output_source(global_output, edge),
            Port::Local(target, target_port) => self.set_source(target, target_port, edge),
            Port::Zero => {
                self.ordered = false;
                assert(self.graph() == old(self).graph());
                assert(self.latest() == old(self).latest());
            },
        }
    }

    /// Connect every output of `source` to the input of `target` of the
    /// same index. The number of outputs of `source` and the number of
    /// inputs of `target` must match.
    pub fn pipe(&mut self, source: NodeIndex, target: NodeIndex)
        requires
            old(self).wf(),
            source < old(self).len(),
            target < old(self).len(),
            old(self).graph().arity[source as int].1 == old(self).graph().arity[target as int].0,
        ensures
            final(self).rewired(
                old(self),
                old(self).graph().with_pipe(source as int, target as int),
            ),
    {
        self.ordered = false;
        assert(self.graph() == old(self).graph());
        assert(self.latest() == old(self).latest());
        let ghost g = old(self).graph();
        let n = self.vertex[target].inputs();
        assert(old(self).vertex@[target as int].wf());
        let mut i: usize = 0;
        while i < n
            invariant
                i <= n,
                n == g.arity[target as int].0,
                self.wf(),
                !self.ordered,
                self.same_units(old(self)),
                source < self.len(),
                target < self.len(),
                g.arity[source as int].1 == g.arity[target as int].0,
                self.graph().inputs == g.inputs,
                self.graph().outputs == g.outputs,
                self.graph().arity == g.arity,
                self.graph().output_sources == g.output_sources,
                self.graph().sources.len() == g.sources.len(),
                self.graph().sources[target as int].len() == n,
                forall|v: int|
                    0 <= v < g.sources.len() && v != target ==> #[trigger] self.graph().sources[v]
                        == g.sources[v],
                forall|c: int|
                    0 <= c < i ==> #[trigger] self.graph().sources[target as int][c]
                        == Port::Local(source, c as usize),
            decreases n - i,
        {
            proof {
                self.lemma_wf();
            }
            self.set_source(target, i, edge(Port::Local(source, i), Port::Local(target, i)));
            i += 1;
        }
        assert(self.graph().sources =~~= g.with_pipe(source as int, target as int).sources);
    }

    /// Taking this network for a chain of units in the order of their
    /// indices, add a new unit to the end of the chain. The network
    /// outputs then read the outputs of the new unit.
    pub fn chain(&mut self, unit: Box<dyn AudioUnit48<T, R>>)
        requires
            old(self).wf(),
            unit.valid(),
            unit.inputs_spec() == unit.outputs_spec(),
            old(self).graph().outputs == unit.outputs_spec(),
            old(self).len() == 0 ==> old(self).graph().inputs == unit.inputs_spec(),
            old(self).len() > 0 ==> old(self).graph().arity[old(self).len() - 1].1
                == unit.inputs_spec(),
        ensures
            final(self).wf(),
            final(self).len() == old(self).len() + 1,
            final(self).graph() == old(self).graph().chained(unit.inputs_spec()),
            final(self).unit(old(self).len() as int).0 == unit,
            forall|v: int| 0 <= v < old(self).len() ==> #[trigger] final(self).unit(v) == old(self).unit(v),
            final(self).latest() == old(self).latest().push(
                Seq::new(unit.outputs_spec(), |c: int| T::zero_spec()),
            ),
            !final(self).is_ordered(),
    {
        proof {
            old(self).lemma_wf();
        }
        let held = Owned(unit);
        let id = self.add_owned(held);
        self.pipe_output(id);
        if id > 0 {
            self.pipe(id - 1, id);
        } else {
            self.pipe_input(id);
        }
    }

    /// Find an order in which to evaluate the vertices: every vertex once,
    /// each after all the vertices it reads. There is one unless the
    /// wiring has a cycle.
    ///
    /// A vertex waits until each of its inputs is ticked off. Inputs that
    /// read silence or the network are ticked off at once. The inputs that
    /// read a vertex are scanned over and over, and ticked off once that
    /// vertex is placed. A scan that places no vertex while some still wait
    /// has found a cycle. Whatever `order` held before is dropped.
    pub fn determine_order_in(&self, order: &mut Vec<NodeIndex>) -> (found: bool)
        requires
            self.wf(),
        ensures
            found <==> !self.graph().has_cycle(),
            found ==> self.graph().scheduled_by(final(order)@),
    {
        let n = self.vertex.len();
        let ghost g = self.graph();
        proof {
            self.lemma_wf();
        }
        order.clear();
        let mut waiting: Vec<bool> = Vec::new();
        let mut inputs_left: Vec<usize> = Vec::new();
        let mut done: Vec<Vec<bool>> = Vec::new();
        let mut i: usize = 0;
        while i < n
            invariant
                i <= n,
                n == self.vertex.len(),
                self.wf(),
                g == self.graph(),
                waiting.len() == i,
                inputs_left.len() == i,
                done.len() == i,
                forall|v: int| 0 <= v < i ==> #[trigger] waiting@[v],
                forall|v: int| 0 <= v < i ==> #[trigger] inputs_left@[v] == g.sources[v].len(),
                forall|v: int| 0 <= v < i ==> (#[trigger] done@[v]).len() == g.sources[v].len(),
                forall|v: int, c: int|
                    0 <= v < i && 0 <= c < done@[v].len() ==> !(#[trigger] done@[v]@[c]),
            decreases n - i,
        {
            assert(self.vertex@[i as int].wf());
            let inputs = self.vertex[i].unit.0.inputs();
            waiting.push(true);
            inputs_left.push(inputs);
            done.push(new_row(inputs));
            i += 1;
        }
        proof {
            assert forall|v: int| 0 <= v < g.len() implies #[trigger] inputs_left@[v] == pending(
                rows(done@)[v],
            ) by {
                lemma_pending_fresh(done@[v]@);
            }
            assert(search_inv(g, order@, waiting@, inputs_left@, rows(done@)));
        }
        // Vertices without inputs wait for nothing.
        i = 0;
        while i < n
            invariant
                i <= n,
                n == g.len(),
                search_inv(g, order@, waiting@, inputs_left@, rows(done@)),
                forall|v: int| 0 <= v < i && #[trigger] waiting@[v] ==> inputs_left@[v] > 0,
                forall|v: int| i <= v < n ==> #[trigger] waiting@[v],
                forall|v: int, c: int|
                    0 <= v < n && 0 <= c < done@[v].len() ==> !(#[trigger] done@[v]@[c]),
            decreases n - i,
        {
            if inputs_left[i] == 0 {
                place(Ghost(g), order, &mut waiting, &inputs_left, &done, i);
            }
            i += 1;
        }
        // Inputs that read silence or the network are satisfied from the start.
        let mut t: usize = 0;
        while t < n
            invariant
                t <= n,
                n == g.len(),
                n == self.vertex.len(),
                self.wf(),
                g == self.graph(),
                search_inv(g, order@, waiting@, inputs_left@, rows(done@)),
                eager(waiting@, inputs_left@),
                forall|v: int, c: int|
                    t <= v < n && 0 <= c < done@[v].len() ==> !(#[trigger] done@[v]@[c]),
                forall|v: int, c: int|
                    0 <= v < t && 0 <= c < g.sources[v].len() && !(g.sources[v][c] is Local)
                        ==> #[trigger] done@[v]@[c],
            decreases n - t,
        {
            assert(self.vertex@[t as int].wf());
            assert(rows(done@)[t as int].len() == g.sources[t as int].len());
            let slots = self.vertex[t].source.len();
            let mut c: usize = 0;
            while c < slots
                invariant
                    c <= slots,
                    t < n,
                    n == g.len(),
                    n == self.vertex.len(),
                    self.wf(),
                    g == self.graph(),
                    slots == g.sources[t as int].len(),
                    slots == self.vertex@[t as int].source.len(),
                    search_inv(g, order@, waiting@, inputs_left@, rows(done@)),
                    eager(waiting@, inputs_left@),
                    forall|v: int, k: int|
                        t < v < n && 0 <= k < done@[v].len() ==> !(#[trigger] done@[v]@[k]),
                    forall|k: int| c <= k < slots ==> !(#[trigger] done@[t as int]@[k]),
                    forall|v: int, k: int|
                        0 <= v < t && 0 <= k < g.sources[v].len() && !(g.sources[v][k] is Local)
                            ==> #[trigger] done@[v]@[k],
                    forall|k: int|
                        0 <= k < c && !(g.sources[t as int][k] is Local)
                            ==> #[trigger] done@[t as int]@[k],
                decreases slots - c,
            {
                let source = self.vertex[t].source[c].source;
                assert(source == g.sources[t as int][c as int]);
                match source {
                    Port::Local(_, _) => {},
                    _ => {
                        proof {
                            assert(!rows(done@)[t as int][c as int]);
                            if !waiting@[t as int] {
                                lemma_placed_settled(
                                    g,
                                    order@,
                                    waiting@,
                                    inputs_left@,
                                    rows(done@),
                                    t as int,
                                );
                            }
                        }
                        if waiting[t] {
                            let ghost before = rows(done@);
                            tick_off(
                                Ghost(g),
                                order,
                                &mut waiting,
                                &mut inputs_left,
                                &mut done,
                                t,
                                c,
                            );
                            proof {
                                assert forall|v: int, k: int|
                                    0 <= v < n && 0 <= k < done@[v].len() && (v != t || k != c)
                                        implies #[trigger] done@[v]@[k] == before[v][k] by {
                                    assert(rows(done@)[v][k] == before[v][k]);
                                }
                                assert(rows(done@)[t as int][c as int]);
                                assert forall|v: int| 0 <= v < n implies (#[trigger] done@[v]).len()
                                    == before[v].len() by {
                                    assert(rows(done@)[v].len() == before[v].len());
                                }
                            }
                        }
                    },
                }
                c += 1;
            }
            t += 1;
        }
        assert(externals_done(g, rows(done@))) by {
            assert forall|v: int, c: int|
                0 <= v < g.len() && 0 <= c < g.sources[v].len() && !(g.sources[v][c] is Local)
                    implies #[trigger] rows(done@)[v][c] by {
                assert(done@[v]@[c]);
            }
        }
        proof {
            lemma_place_bound(g, order@, waiting@, inputs_left@, rows(done@));
        }
        // Inputs that read a vertex are satisfied once that vertex is placed.
        while order.len() < n
            invariant
                n == g.len(),
                n == self.vertex.len(),
                self.wf(),
                g == self.graph(),
                search_inv(g, order@, waiting@, inputs_left@, rows(done@)),
                eager(waiting@, inputs_left@),
                externals_done(g, rows(done@)),
                order.len() <= n,
            decreases n - order.len(),
        {
            let placed = order.len();
            let mut t: usize = 0;
            while t < n
                invariant
                    t <= n,
                    n == g.len(),
                    n == self.vertex.len(),
                    self.wf(),
                    g == self.graph(),
                    search_inv(g, order@, waiting@, inputs_left@, rows(done@)),
                    eager(waiting@, inputs_left@),
                    externals_done(g, rows(done@)),
                    placed <= order.len() <= n,
                    placed < n,
                    order.len() == placed ==> forall|v: int, k: int|
                        0 <= v < t && 0 <= k < g.sources[v].len() && waiting@[v] && !(
                        #[trigger] rows(done@)[v][k]) ==> !settled(g, waiting@, v, k),
                decreases n - t,
            {
                assert(self.vertex@[t as int].wf());
                let slots = self.vertex[t].source.len();
                let mut c: usize = 0;
                while c < slots
                    invariant
                        c <= slots,
                        t < n,
                        n == g.len(),
                        n == self.vertex.len(),
                        self.wf(),
                        g == self.graph(),
                        slots == g.sources[t as int].len(),
                        slots == self.vertex@[t as int].source.len(),
                        search_inv(g, order@, waiting@, inputs_left@, rows(done@)),
                        eager(waiting@, inputs_left@),
                        externals_done(g, rows(done@)),
                        placed <= order.len() <= n,
                        placed < n,
                        order.len() == placed ==> forall|v: int, k: int|
                            0 <= v < t && 0 <= k < g.sources[v].len() && waiting@[v] && !(
                            #[trigger] rows(done@)[v][k]) ==> !settled(g, waiting@, v, k),
                        order.len() == placed ==> forall|k: int|
                            0 <= k < c && waiting@[t as int] && !(#[trigger] rows(
                                done@,
                            )[t as int][k]) ==> !settled(g, waiting@, t as int, k),
                    decreases slots - c,
                {
                    let source = self.vertex[t].source[c].source;
                    assert(source == g.sources[t as int][c as int]);
                    assert(g.readable(g.sources[t as int][c as int]));
                    assert(rows(done@)[t as int].len() == g.sources[t as int].len());
                    match source {
                        Port::Local(s, _) => {
                            if !waiting[s] && waiting[t] && !done[t][c] {
                                let ghost before = rows(done@);
                                let ghost waited = waiting@;
                                tick_off(
                                    Ghost(g),
                                    order,
                                    &mut waiting,
                                    &mut inputs_left,
                                    &mut done,
                                    t,
                                    c,
                                );
                                proof {
                                    assert(externals_done(g, rows(done@))) by {
                                        assert forall|v: int, k: int|
                                            0 <= v < g.len() && 0 <= k < g.sources[v].len() && !(
                                            g.sources[v][k] is Local) implies #[trigger] rows(
                                            done@,
                                        )[v][k] by {
                                            assert(before[v][k]);
                                        }
                                    }
                                    lemma_place_bound(g, order@, waiting@, inputs_left@, rows(done@));
                                    if order.len() == placed {
                                        assert(waiting@ == waited);
                                        assert forall|v: int, k: int|
                                            0 <= v < t && 0 <= k < g.sources[v].len() && waiting@[v]
                                                && !(#[trigger] rows(done@)[v][k]) implies !settled(
                                            g,
                                            waiting@,
                                            v,
                                            k,
                                        ) by {
                                            assert(!before[v][k]);
                                        }
                                        assert forall|k: int|
                                            0 <= k < c + 1 && waiting@[t as int] && !(
                                            #[trigger] rows(done@)[t as int][k]) implies !settled(
                                            g,
                                            waiting@,
                                            t as int,
                                            k,
                                        ) by {
                                            assert(!before[t as int][k]);
                                        }
                                    }
                                }
                            }
                        },
                        _ => {
                            assert(rows(done@)[t as int][c as int]);
                        },
                    }
                    c += 1;
                }
                t += 1;
            }
            if order.len() == placed {
                proof {
                    lemma_search_stuck(g, order@, waiting@, inputs_left@, rows(done@));
                }
                return false;
            }
        }
        proof {
            lemma_scheduled_acyclic(g, order@);
        }
        true
    }

    /// Find the evaluation order for the present wiring and keep it.
    pub fn determine_order(&mut self) -> (found: bool)
        requires
            old(self).wf(),
        ensures
            final(self).wf(),
            final(self).graph() == old(self).graph(),
            final(self).same_units(old(self)),
            found <==> !old(self).graph().has_cycle(),
            found ==> final(self).is_ordered() && final(self).graph().scheduled_by(
                final(self).schedule(),
            ),
            !found ==> final(self).is_ordered() == old(self).is_ordered() && final(self).schedule()
                == old(self).schedule(),
    {
        let mut order: Vec<NodeIndex> = Vec::new();
        let found = self.determine_order_in(&mut order);
        if found {
            self.order = order;
            self.ordered = true;
        }
        assert(self.graph() == old(self).graph());
        assert(self.latest() == old(self).latest());
        found
    }

    /// The evaluation order that is kept.
    pub closed spec fn schedule(&self) -> Seq<usize> {
        self.order@
    }

    /// The frame that vertex `v` reads when the vertices last produced
    /// `produced` and the network is fed `fed`.
    pub open spec fn frame_into(&self, v: int, produced: Seq<Seq<T>>, fed: Seq<T>) -> Seq<T> {
        gather(self.graph().sources[v], produced, fed, T::zero_spec())
    }

    /// Vertex `v` of `self` is what it was in `before`, one sample on: what
    /// it put out last is its earlier response to the frame it reads, and
    /// it responds from now on as it did before to that frame and what
    /// follows.
    pub open spec fn stepped(&self, before: &Self, fed: Seq<T>, v: int) -> bool {
        let frame = self.frame_into(v, self.latest(), fed);
        &&& self.latest()[v] == before.unit(v).0.response(seq![frame])
        &&& forall|h: Seq<Seq<T>>|
            h.len() > 0 ==> #[trigger] self.unit(v).0.response(h) == before.unit(v).0.response(
                seq![frame] + h,
            )
    }

    /// `self` is `before` one sample on, fed `fed`: every vertex has
    /// stepped, and `output` is what the network outputs read.
    pub open spec fn ticked(&self, before: &Self, fed: Seq<T>, output: Seq<T>) -> bool {
        &&& self.graph() == before.graph()
        &&& self.len() == before.len()
        &&& forall|v: int| 0 <= v < self.len() ==> #[trigger] self.stepped(before, fed, v)
        &&& output == gather(self.graph().output_sources, self.latest(), fed, T::zero_spec())
    }

    /// Read the sample a port holds.
    fn read_port(&self, port: Port, input: &Vec<T>) -> (value: T)
        requires
            self.wf(),
            self.graph().readable(port),
            input.len() == self.graph().inputs,
        ensures
            value == port_value(port, self.latest(), input@, T::zero_spec()),
    {
        proof {
            self.lemma_wf();
        }
        match port {
            Port::Zero => T::zero(),
            Port::Global(p) => input[p],
            Port::Local(s, p) => {
                assert(self.vertex@[s as int].wf());
                self.vertex[s].tick_output[p]
            },
        }
    }

    /// Run the unit of vertex `v` for one sample.
    fn tick_vertex(&mut self, v: NodeIndex, input: &Vec<T>)
        requires
            old(self).wf(),
            v < old(self).len(),
            input.len() == old(self).graph().inputs,
        ensures
            final(self).wf(),
            final(self).graph() == old(self).graph(),
            final(self).schedule() == old(self).schedule(),
            final(self).is_ordered() == old(self).is_ordered(),
            final(self).len() == old(self).len(),
            final(self).latest() == old(self).latest().update(
                v as int,
                old(self).unit(v as int).0.response(
                    seq![old(self).frame_into(v as int, old(self).latest(), input@)],
                ),
            ),
            forall|u: int|
                0 <= u < old(self).len() && u != v ==> #[trigger] final(self).unit(u) == old(
                    self,
                ).unit(u),
            forall|h: Seq<Seq<T>>|
                h.len() > 0 ==> #[trigger] final(self).unit(v as int).0.response(h) == old(
                    self,
                ).unit(v as int).0.response(
                    seq![old(self).frame_into(v as int, old(self).latest(), input@)] + h,
                ),
    {
        let ghost g = self.graph();
        let ghost produced = self.latest();
        let ghost frame = self.frame_into(v as int, produced, input@);
        proof {
            self.lemma_wf();
            assert(self.vertex@[v as int].wf());
        }
        let ghost before = *self;
        let mut gathered: Vec<T> = Vec::new();
        let ghost hollow = gathered;
        std::mem::swap(&mut gathered, &mut self.vertex[v].tick_input);
        let channels = gathered.len();
        let mut c: usize = 0;
        while c < channels
            invariant
                c <= channels,
                before.wf(),
                v < before.vertex.len(),
                g == before.graph(),
                produced == before.latest(),
                input.len() == g.inputs,
                self.inputs == before.inputs,
                self.outputs == before.outputs,
                self.output_edge == before.output_edge,
                self.order == before.order,
                self.ordered == before.ordered,
                self.vertex@ == before.vertex@.update(
                    v as int,
                    Vertex48 { tick_input: hollow, ..before.vertex@[v as int] },
                ),
                channels == g.sources[v as int].len(),
                gathered.len() == channels,
                frame == gather(g.sources[v as int], produced, input@, T::zero_spec()),
                forall|k: int| 0 <= k < c ==> #[trigger] gathered@[k] == frame[k],
            decreases channels - c,
        {
            assert(before.vertex@[v as int].wf());
            let port = self.vertex[v].source[c].source;
            assert(port == g.sources[v as int][c as int]);
            assert(g.readable(g.sources[v as int][c as int]));
            match port {
                Port::Zero => gathered[c] = T::zero(),
                Port::Global(p) => gathered[c] = input[p],
                Port::Local(s, p) => {
                    proof {
                        before.lemma_wf();
                        assert(before.vertex@[s as int].wf());
                        assert(self.vertex@[s as int].tick_output == before.vertex@[s as int].tick_output);
                    }
                    gathered[c] = self.vertex[s].tick_output[p]
                },
            }
            c += 1;
        }
        assert(gathered@ =~= frame);
        std::mem::swap(&mut gathered, &mut self.vertex[v].tick_input);
        let vertex = &mut self.vertex[v];
        vertex.unit.0.tick(&vertex.tick_input, &mut vertex.tick_output);
        proof {
            assert forall|u: int| 0 <= u < self.vertex.len() implies (#[trigger] self.vertex@[u]).wf()
                && self.vertex@[u].id == u by {
                assert(old(self).vertex@[u].wf());
            }
            assert(self.graph().sources =~~= g.sources);
            assert(self.graph().arity =~~= g.arity);
            assert(self.graph().output_sources =~~= g.output_sources);
            assert(self.latest() =~~= produced.update(
                v as int,
                old(self).unit(v as int).0.response(seq![frame]),
            ));
        }
    }

    /// Process one sample: feed `input` to the network and collect what
    /// its outputs read into `output`. Fails, changing nothing, when the
    /// wiring has a cycle.
    pub fn tick(&mut self, input: &Vec<T>, output: &mut Vec<T>) -> (result: Result<(), NetError>)
        requires
            old(self).wf(),
            input.len() == old(self).graph().inputs,
            old(output).len() == old(self).graph().outputs,
        ensures
            final(self).wf(),
            final(output).len() == old(output).len(),
            result is Err <==> old(self).graph().has_cycle(),
            result is Ok ==> final(self).ticked(old(self), input@, final(output)@),
            result is Ok ==> final(self).is_ordered(),
            result is Err ==> final(self).graph() == old(self).graph() && final(self).same_units(
                old(self),
            ) && final(output)@ == old(output)@,
    {
        if !self.ordered {
            if !self.determine_order() {
                return Err(NetError::Cycle);
            }
        }
        let ghost start = *self;
        let ghost g = self.graph();
        let ghost fed = input@;
        proof {
            self.lemma_wf();
            lemma_scheduled_acyclic(g, self.order@);
            assert(start.graph() == old(self).graph());
            assert(start.same_units(old(self)));
        }
        let n = self.order.len();
        let mut k: usize = 0;
        while k < n
            invariant
                k <= n,
                n == g.len(),
                n == self.len(),
                self.wf(),
                self.ordered,
                g == self.graph(),
                g == start.graph(),
                start.len() == n,
                fed == input@,
                self.order@ == start.order@,
                g.scheduled_by(self.order@),
                input.len() == g.inputs,
                forall|i: int| 0 <= i < k ==> self.stepped(&start, fed, #[trigger] self.order@[i] as int),
                forall|i: int|
                    k <= i < n ==> self.unit(#[trigger] self.order@[i] as int) == start.unit(
                        self.order@[i] as int,
                    ),
            decreases n - k,
        {
            let v = self.order[k];
            let ghost before = *self;
            let ghost frame = self.frame_into(v as int, self.latest(), fed);
            self.tick_vertex(v, input);
            proof {
                before.lemma_wf();
                let out = before.unit(v as int).0.response(seq![frame]);
                assert(self.latest() == before.latest().update(v as int, out));
                assert forall|i: int| 0 <= i < k + 1 implies self.stepped(
                    &start,
                    fed,
                    #[trigger] self.order@[i] as int,
                ) by {
                    let u = self.order@[i] as int;
                    lemma_reads_only_earlier(g, self.order@, i, k as int);
                    lemma_gather_update(
                        g.sources[u],
                        before.latest(),
                        fed,
                        T::zero_spec(),
                        v as int,
                        out,
                    );
                    assert(self.frame_into(u, self.latest(), fed) == before.frame_into(
                        u,
                        before.latest(),
                        fed,
                    ));
                    if i < k {
                        assert(before.stepped(&start, fed, before.order@[i] as int));
                        assert(u != v);
                        assert(self.unit(u) == before.unit(u));
                    } else {
                        assert(before.unit(v as int) == start.unit(before.order@[k as int] as int));
                    }
                }
                assert forall|i: int| k + 1 <= i < n implies self.unit(
                    #[trigger] self.order@[i] as int,
                ) == start.unit(self.order@[i] as int) by {
                    assert(before.unit(before.order@[i] as int) == start.unit(
                        before.order@[i] as int,
                    ));
                }
            }
            k += 1;
        }
        proof {
            assert forall|v: int| 0 <= v < self.len() implies #[trigger] self.stepped(
                &start,
                fed,
                v,
            ) by {
                let i = lemma_order_complete(g, self.order@, v);
                assert(self.stepped(&start, fed, self.order@[i] as int));
            }
            assert forall|v: int| 0 <= v < self.len() implies #[trigger] self.stepped(
                old(self),
                fed,
                v,
            ) by {
                assert(self.stepped(&start, fed, v));
                assert(start.unit(v) == old(self).unit(v));
            }
        }
        let ghost wanted = gather(g.output_sources, self.latest(), fed, T::zero_spec());
        let channels = output.len();
        let mut c: usize = 0;
        while c < channels
            invariant
                c <= channels,
                channels == output.len(),
                channels == g.outputs,
                output.len() == old(output).len(),
                self.wf(),
                g == self.graph(),
                fed == input@,
                input.len() == g.inputs,
                wanted == gather(g.output_sources, self.latest(), fed, T::zero_spec()),
                output@.take(c as int) == wanted.take(c as int),
            decreases channels - c,
        {
            proof {
                self.lemma_wf();
            }
            let port = self.output_edge[c].source;
            assert(port == g.output_sources[c as int]);
            assert(g.readable(g.output_sources[c as int]));
            let value = self.read_port(port, input);
            output[c] = value;
            c += 1;
            assert(output@.take(c as int) =~= wanted.take(c as int)) by {
                assert forall|j: int| 0 <= j < c implies output@.take(c as int)[j] == wanted.take(
                    c as int,
                )[j] by {
                    if j < c - 1 {
                        assert(output@.take(c - 1)[j] == wanted.take(c - 1)[j]);
                    }
                }
            }
        }
        proof {
            self.lemma_wf();
            assert(output@.take(c as int) =~= output@);
            assert(wanted.take(c as int) =~= wanted);
        }
        Ok(())
    }

    /// What vertex `v` reads over the first `size` samples of a block, one
    /// frame per sample, when the network is fed the frames `fed`.
    pub open spec fn heard(&self, v: int, size: nat, fed: Seq<Seq<T>>) -> Seq<Seq<T>> {
        Seq::new(size, |j: int| self.frame_into(v, self.block_frame(j), fed[j]))
    }

    /// Vertex `v` of `self` is what it was in `before`, `size` samples on:
    /// each sample of the block it put out is its earlier response to what
    /// it had read up to that sample, and it responds from now on as it did
    /// before to all it has read and what follows.
    pub open spec fn stepped_block(&self, before: &Self, size: nat, fed: Seq<Seq<T>>, v: int) -> bool {
        let heard = self.heard(v, size, fed);
        &&& forall|j: int|
            0 <= j < size ==> (#[trigger] self.block_frame(j))[v] == before.unit(v).0.response(
                heard.take(j + 1),
            )
        &&& forall|h: Seq<Seq<T>>|
            h.len() > 0 ==> #[trigger] self.unit(v).0.response(h) == before.unit(v).0.response(
                heard + h,
            )
    }

    /// `self` is `before` one block of `size` samples on, fed the frames
    /// `fed`: every vertex has stepped through the block, and each frame of
    /// `output` is what the network outputs read at that sample.
    pub open spec fn processed(
        &self,
        before: &Self,
        size: nat,
        fed: Seq<Seq<T>>,
        output: Seq<Seq<T>>,
    ) -> bool {
        &&& self.graph() == before.graph()
        &&& self.len() == before.len()
        &&& forall|v: int|
            0 <= v < self.len() ==> #[trigger] self.stepped_block(before, size, fed, v)
        &&& output.len() == size
        &&& forall|j: int|
            0 <= j < size ==> #[trigger] output[j] == gather(
                self.graph().output_sources,
                self.block_frame(j),
                fed[j],
                T::zero_spec(),
            )
    }

    /// Run the unit of vertex `v` for the first `size` samples of a block.
    fn process_vertex(&mut self, v: NodeIndex, size: usize, input: &Vec<Vec<T>>)
        requires
            old(self).wf(),
            v < old(self).len(),
            size <= MAX_BUFFER_SIZE,
            input.len() == old(self).graph().inputs,
            holds(input@, size as nat),
        ensures
            final(self).wf(),
            final(self).graph() == old(self).graph(),
            final(self).schedule() == old(self).schedule(),
            final(self).is_ordered() == old(self).is_ordered(),
            final(self).len() == old(self).len(),
            final(self).latest() == old(self).latest(),
            forall|j: int|
                0 <= j < size ==> #[trigger] final(self).block_frame(j) == old(self).block_frame(
                    j,
                ).update(
                    v as int,
                    old(self).unit(v as int).0.response(
                        old(self).heard(v as int, size as nat, frames(input@, size as nat)).take(
                            j + 1,
                        ),
                    ),
                ),
            forall|u: int|
                0 <= u < old(self).len() && u != v ==> #[trigger] final(self).unit(u) == old(
                    self,
                ).unit(u),
            forall|h: Seq<Seq<T>>|
                h.len() > 0 ==> #[trigger] final(self).unit(v as int).0.response(h) == old(
                    self,
                ).unit(v as int).0.response(
                    old(self).heard(v as int, size as nat, frames(input@, size as nat)) + h,
                ),
    {
        let ghost before = *self;
        let ghost g = self.graph();
        let ghost fed = frames(input@, size as nat);
        let ghost heard = self.heard(v as int, size as nat, fed);
        proof {
            self.lemma_wf();
            assert(self.vertex@[v as int].wf());
        }
        let mut block: Vec<Vec<T>> = Vec::new();
        let ghost hollow = block;
        std::mem::swap(&mut block, &mut self.vertex[v].input);
        let channels = block.len();
        let mut c: usize = 0;
        while c < channels
            invariant
                c <= channels,
                before.wf(),
                v < before.vertex.len(),
                g == before.graph(),
                size <= MAX_BUFFER_SIZE,
                input.len() == g.inputs,
                holds(input@, size as nat),
                self.inputs == before.inputs,
                self.outputs == before.outputs,
                self.output_edge == before.output_edge,
                self.order == before.order,
                self.ordered == before.ordered,
                self.vertex@ == before.vertex@.update(
                    v as int,
                    Vertex48 { input: hollow, ..before.vertex@[v as int] },
                ),
                channels == g.sources[v as int].len(),
                block.len() == channels,
                forall|k: int| 0 <= k < channels ==> (#[trigger] block@[k]).len() == MAX_BUFFER_SIZE,
                forall|k: int, j: int|
                    0 <= k < c && 0 <= j < size ==> #[trigger] block@[k]@[j] == port_value(
                        g.sources[v as int][k],
                        before.block_frame(j),
                        frame(input@, j),
                        T::zero_spec(),
                    ),
            decreases channels - c,
        {
            assert(before.vertex@[v as int].wf());
            let port = self.vertex[v].source[c].source;
            assert(port == g.sources[v as int][c as int]);
            assert(g.readable(g.sources[v as int][c as int]));
            let ghost filled = block@;
            match port {
                Port::Zero => fill_block(&mut block[c], T::zero(), size),
                Port::Global(p) => copy_block(&mut block[c], &input[p], size),
                Port::Local(s, p) => {
                    proof {
                        before.lemma_wf();
                        assert(before.vertex@[s as int].wf());
                        assert(self.vertex@[s as int].output == before.vertex@[s as int].output);
                    }
                    copy_block(&mut block[c], &self.vertex[s].output[p], size)
                },
            }
            assert(forall|k: int| 0 <= k < channels && k != c ==> block@[k] == filled[k]);
            c += 1;
        }
        std::mem::swap(&mut block, &mut self.vertex[v].input);
        let vertex = &mut self.vertex[v];
        assert(holds(vertex.input@, size as nat));
        assert(holds(vertex.output@, size as nat)) by {
            assert(before.vertex@[v as int].wf());
        }
        let ghost heard_block = vertex.input@;
        vertex.unit.0.process(size, &vertex.input, &mut vertex.output);
        proof {
            assert forall|u: int| 0 <= u < self.vertex.len() implies (#[trigger] self.vertex@[u]).wf()
                && self.vertex@[u].id == u by {
                assert(before.vertex@[u].wf());
            }
            assert(self.graph().sources =~~= g.sources);
            assert(self.graph().arity =~~= g.arity);
            assert(self.graph().output_sources =~~= g.output_sources);
            assert(self.latest() =~~= before.latest());
            assert forall|j: int| 0 <= j < size implies #[trigger] frame(heard_block, j)
                == heard[j] by {
                assert(frame(heard_block, j) =~= heard[j]);
            }
            assert(frames(heard_block, size as nat) =~= heard);
            assert forall|j: int| 0 <= j < size implies #[trigger] self.block_frame(j)
                == before.block_frame(j).update(
                v as int,
                before.unit(v as int).0.response(heard.take(j + 1)),
            ) by {
                assert(frames(heard_block, (j + 1) as nat) =~= heard.take(j + 1));
                assert(frame(self.vertex@[v as int].output@, j) == before.unit(
                    v as int,
                ).0.response(frames(heard_block, (j + 1) as nat)));
                assert(self.block_frame(j) =~= before.block_frame(j).update(
                    v as int,
                    before.unit(v as int).0.response(heard.take(j + 1)),
                ));
            }
        }
    }

    /// Process the first `size` samples of a block: feed `input` to the
    /// network and collect what its outputs read into `output`. Fails,
    /// changing nothing, when the wiring has a cycle.
    pub fn process(&mut self, size: usize, input: &Vec<Vec<T>>, output: &mut Vec<Vec<T>>) -> (result:
        Result<(), NetError>)
        requires
            old(self).wf(),
            size <= MAX_BUFFER_SIZE,
            input.len() == old(self).graph().inputs,
            old(output).len() == old(self).graph().outputs,
            holds(input@, size as nat),
            holds(old(output)@, size as nat),
        ensures
            final(self).wf(),
            same_shape(final(output)@, old(output)@),
            forall|c: int, j: int|
                0 <= c < old(output).len() && size <= j < old(output)@[c].len()
                    ==> #[trigger] final(output)@[c]@[j] == old(output)@[c]@[j],
            result is Err <==> old(self).graph().has_cycle(),
            result is Ok ==> final(self).processed(
                old(self),
                size as nat,
                frames(input@, size as nat),
                frames(final(output)@, size as nat),
            ),
            result is Err ==> final(self).graph() == old(self).graph() && final(self).same_units(
                old(self),
            ) && final(output)@ == old(output)@,
    {
        if !self.ordered {
            if !self.determine_order() {
                return Err(NetError::Cycle);
            }
        }
        let ghost start = *self;
        let ghost g = self.graph();
        let ghost fed = frames(input@, size as nat);
        let ghost span = size as nat;
        proof {
            self.lemma_wf();
            lemma_scheduled_acyclic(g, self.order@);
            assert(start.graph() == old(self).graph());
            assert(start.same_units(old(self)));
        }
        let n = self.order.len();
        let mut k: usize = 0;
        while k < n
            invariant
                k <= n,
                n == g.len(),
                n == self.len(),
                self.wf(),
                self.ordered,
                g == self.graph(),
                g == start.graph(),
                start.len() == n,
                size <= MAX_BUFFER_SIZE,
                span == size,
                fed == frames(input@, size as nat),
                holds(input@, size as nat),
                self.order@ == start.order@,
                g.scheduled_by(self.order@),
                input.len() == g.inputs,
                forall|i: int|
                    0 <= i < k ==> self.stepped_block(
                        &start,
                        span,
                        fed,
                        #[trigger] self.order@[i] as int,
                    ),
                forall|i: int|
                    k <= i < n ==> self.unit(#[trigger] self.order@[i] as int) == start.unit(
                        self.order@[i] as int,
                    ),
            decreases n - k,
        {
            let v = self.order[k];
            let ghost before = *self;
            self.process_vertex(v, size, input);
            proof {
                before.lemma_wf();
                assert forall|i: int| 0 <= i < k + 1 implies self.stepped_block(
                    &start,
                    span,
                    fed,
                    #[trigger] self.order@[i] as int,
                ) by {
                    let u = self.order@[i] as int;
                    lemma_reads_only_earlier(g, self.order@, i, k as int);
                    assert forall|j: int| 0 <= j < span implies self.frame_into(
                        u,
                        #[trigger] self.block_frame(j),
                        fed[j],
                    ) == before.frame_into(u, before.block_frame(j), fed[j]) by {
                        let out = before.unit(v as int).0.response(
                            before.heard(v as int, span, fed).take(j + 1),
                        );
                        assert(self.block_frame(j) == before.block_frame(j).update(v as int, out));
                        lemma_gather_update(
                            g.sources[u],
                            before.block_frame(j),
                            fed[j],
                            T::zero_spec(),
                            v as int,
                            out,
                        );
                    }
                    assert(self.heard(u, span, fed) =~= before.heard(u, span, fed));
                    if i < k {
                        assert(before.stepped_block(&start, span, fed, before.order@[i] as int));
                        assert(u != v);
                        assert(self.unit(u) == before.unit(u));
                        assert forall|j: int| 0 <= j < span implies (#[trigger] self.block_frame(
                            j,
                        ))[u] == start.unit(u).0.response(self.heard(u, span, fed).take(j + 1)) by {
                            assert(self.block_frame(j)[u] == before.block_frame(j)[u]);
                        }
                    } else {
                        assert(before.unit(v as int) == start.unit(before.order@[k as int] as int));
                    }
                }
                assert forall|i: int| k + 1 <= i < n implies self.unit(
                    #[trigger] self.order@[i] as int,
                ) == start.unit(self.order@[i] as int) by {
                    assert(before.unit(before.order@[i] as int) == start.unit(
                        before.order@[i] as int,
                    ));
                }
            }
            k += 1;
        }
        proof {
            assert forall|v: int| 0 <= v < self.len() implies #[trigger] self.stepped_block(
                old(self),
                span,
                fed,
                v,
            ) by {
                let i = lemma_order_complete(g, self.order@, v);
                assert(self.stepped_block(&start, span, fed, self.order@[i] as int));
                assert(start.unit(v) == old(self).unit(v));
            }
        }
        let channels = output.len();
        let mut c: usize = 0;
        while c < channels
            invariant
                c <= channels,
                channels == output.len(),
                channels == g.outputs,
                same_shape(output@, old(output)@),
                holds(old(output)@, size as nat),
                holds(input@, size as nat),
                size <= MAX_BUFFER_SIZE,
                self.wf(),
                g == self.graph(),
                input.len() == g.inputs,
                forall|k: int, j: int|
                    0 <= k < channels && size <= j < output@[k].len() ==> #[trigger] output@[k]@[j]
                        == old(output)@[k]@[j],
                forall|k: int, j: int|
                    0 <= k < c && 0 <= j < size ==> #[trigger] output@[k]@[j] == port_value(
                        g.output_sources[k],
                        self.block_frame(j),
                        frame(input@, j),
                        T::zero_spec(),
                    ),
            decreases channels - c,
        {
            proof {
                self.lemma_wf();
            }
            let port = self.output_edge[c].source;
            assert(port == g.output_sources[c as int]);
            assert(g.readable(g.output_sources[c as int]));
            let ghost filled = output@;
            match port {
                Port::Zero => fill_block(&mut output[c], T::zero(), size),
                Port::Global(p) => copy_block(&mut output[c], &input[p], size),
                Port::Local(s, p) => {
                    assert(self.vertex@[s as int].wf());
                    copy_block(&mut output[c], &self.vertex[s].output[p], size)
                },
            }
            assert(forall|k: int| 0 <= k < channels && k != c ==> output@[k] == filled[k]);
            c += 1;
        }
        proof {
            assert forall|j: int| 0 <= j < span implies #[trigger] frames(output@, span)[j]
                == gather(g.output_sources, self.block_frame(j), fed[j], T::zero_spec()) by {
                assert(frames(output@, span)[j] =~= gather(
                    g.output_sources,
                    self.block_frame(j),
                    fed[j],
                    T::zero_spec(),
                ));
            }
        }
        Ok(())
    }

    /// The descriptors `inner`, one frame per vertex, and `output` describe
    /// the network when its inputs are described by `input`: each vertex
    /// turns the descriptors it reads into those of its outputs, and the
    /// network outputs read theirs. Silence is described as the constant
    /// zero.
    pub open spec fn routed(
        &self,
        input: Seq<Signal<R>>,
        frequency: R,
        inner: Seq<Seq<Signal<R>>>,
        output: Seq<Signal<R>>,
    ) -> bool {
        &&& inner.len() == self.len()
        &&& forall|v: int|
            0 <= v < self.len() ==> #[trigger] inner[v] == self.unit(v).0.route_spec(
                gather(self.graph().sources[v], inner, input, silent_signal::<R>()),
                frequency,
            )
        &&& output == gather(self.graph().output_sources, inner, input, silent_signal::<R>())
    }

    /// Collect the descriptors that `sources` read.
    fn gather_signals(
        &self,
        sources: &Vec<Edge>,
        inner: &Vec<Vec<Signal<R>>>,
        input: &Vec<Signal<R>>,
    ) -> (frame: Vec<Signal<R>>)
        requires
            self.wf(),
            input.len() == self.graph().inputs,
            inner.len() == self.len(),
            forall|v: int|
                0 <= v < self.len() ==> (#[trigger] inner@[v]).len() == self.graph().arity[v].1,
            forall|c: int| 0 <= c < sources.len() ==> self.graph().readable(#[trigger] sources@[c].source),
        ensures
            frame@ == gather(
                Seq::new(sources.len() as nat, |c: int| sources@[c].source),
                Seq::new(inner.len() as nat, |v: int| inner@[v]@),
                input@,
                silent_signal::<R>(),
            ),
    {
        let ghost ports = Seq::new(sources.len() as nat, |c: int| sources@[c].source);
        let ghost known = Seq::new(inner.len() as nat, |v: int| inner@[v]@);
        let ghost wanted = gather(ports, known, input@, silent_signal::<R>());
        let mut frame: Vec<Signal<R>> = new_signal_frame(sources.len());
        let mut c: usize = 0;
        while c < sources.len()
            invariant
                c <= sources.len(),
                frame.len() == sources.len(),
                self.wf(),
                input.len() == self.graph().inputs,
                inner.len() == self.len(),
                forall|v: int|
                    0 <= v < self.len() ==> (#[trigger] inner@[v]).len() == self.graph().arity[v].1,
                forall|c: int|
                    0 <= c < sources.len() ==> self.graph().readable(#[trigger] sources@[c].source),
                ports == Seq::new(sources.len() as nat, |c: int| sources@[c].source),
                known == Seq::new(inner.len() as nat, |v: int| inner@[v]@),
                wanted == gather(ports, known, input@, silent_signal::<R>()),
                forall|k: int| 0 <= k < c ==> #[trigger] frame@[k] == wanted[k],
            decreases sources.len() - c,
        {
            proof {
                self.lemma_wf();
                assert(self.graph().readable(sources@[c as int].source));
            }
            match sources[c].source {
                Port::Local(j, port) => {
                    assert(inner@[j as int].len() == self.graph().arity[j as int].1);
                    frame[c] = inner[j][port];
                },
                Port::Global(j) => {
                    frame[c] = input[j];
                },
                Port::Zero => {
                    frame[c] = Signal::Value(R::zero());
                },
            }
            c += 1;
        }
        assert(frame@ =~= wanted);
        frame
    }

    /// Describe the outputs of the network at one frequency, given
    /// descriptors of its inputs. The evaluation order is found for this
    /// call alone, and the network is left as it is. Fails when the wiring
    /// has a cycle.
    pub fn route(&self, input: &Vec<Signal<R>>, frequency: R) -> (result: Result<
        Vec<Signal<R>>,
        NetError,
    >)
        requires
            self.wf(),
            input.len() == self.graph().inputs,
        ensures
            result is Err <==> self.graph().has_cycle(),
            result matches Ok(output) ==> exists|inner: Seq<Seq<Signal<R>>>| #[trigger]
                self.routed(input@, frequency, inner, output@),
    {
        let mut order: Vec<NodeIndex> = Vec::new();
        if !self.determine_order_in(&mut order) {
            return Err(NetError::Cycle);
        }
        let ghost g = self.graph();
        let n = self.vertex.len();
        proof {
            self.lemma_wf();
        }
        let mut inner_signal: Vec<Vec<Signal<R>>> = Vec::new();
        let mut i: usize = 0;
        while i < n
            invariant
                i <= n,
                n == self.vertex.len(),
                self.wf(),
                g == self.graph(),
                inner_signal.len() == i,
                forall|v: int| 0 <= v < i ==> (#[trigger] inner_signal@[v]).len() == g.arity[v].1,
            decreases n - i,
        {
            proof {
                self.lemma_wf();
                assert(self.vertex@[i as int].wf());
            }
            inner_signal.push(new_signal_frame(self.vertex[i].unit.0.outputs()));
            i += 1;
        }
        let mut k: usize = 0;
        while k < n
            invariant
                k <= n,
                n == self.vertex.len(),
                n == g.len(),
                self.wf(),
                g == self.graph(),
                g.scheduled_by(order@),
                input.len() == g.inputs,
                inner_signal.len() == n,
                forall|v: int| 0 <= v < n ==> (#[trigger] inner_signal@[v]).len() == g.arity[v].1,
                forall|i: int|
                    0 <= i < k ==> (#[trigger] inner_signal@[order@[i] as int])@ == self.unit(
                        order@[i] as int,
                    ).0.route_spec(
                        gather(
                            g.sources[order@[i] as int],
                            Seq::new(n as nat, |v: int| inner_signal@[v]@),
                            input@,
                            silent_signal::<R>(),
                        ),
                        frequency,
                    ),
            decreases n - k,
        {
            let unit_index = order[k];
            let ghost known = Seq::new(n as nat, |v: int| inner_signal@[v]@);
            proof {
                self.lemma_wf();
                assert(self.vertex@[unit_index as int].wf());
                assert forall|c: int|
                    0 <= c < self.vertex@[unit_index as int].source.len() implies g.readable(
                    #[trigger] self.vertex@[unit_index as int].source@[c].source,
                ) by {
                    assert(g.readable(g.sources[unit_index as int][c]));
                }
                assert(Seq::new(
                    self.vertex@[unit_index as int].source.len() as nat,
                    |c: int| self.vertex@[unit_index as int].source@[c].source,
                ) =~= g.sources[unit_index as int]);
            }
            let input_signal = self.gather_signals(
                &self.vertex[unit_index].source,
                &inner_signal,
                input,
            );
            let described = self.vertex[unit_index].unit.0.route(&input_signal, frequency);
            inner_signal[unit_index] = described;
            proof {
                let after = Seq::new(n as nat, |v: int| inner_signal@[v]@);
                assert(after =~= known.update(unit_index as int, described@));
                assert forall|i: int| 0 <= i < k + 1 implies (#[trigger] inner_signal@[order@[i] as int])@
                    == self.unit(order@[i] as int).0.route_spec(
                    gather(g.sources[order@[i] as int], after, input@, silent_signal::<R>()),
                    frequency,
                ) by {
                    let u = order@[i] as int;
                    lemma_reads_only_earlier(g, order@, i, k as int);
                    lemma_gather_update(
                        g.sources[u],
                        known,
                        input@,
                        silent_signal::<R>(),
                        unit_index as int,
                        described@,
                    );
                    if i < k {
                        assert(u != unit_index);
                    }
                }
            }
            k += 1;
        }
        let ghost inner = Seq::new(n as nat, |v: int| inner_signal@[v]@);
        proof {
            assert forall|c: int| 0 <= c < self.output_edge.len() implies g.readable(
                #[trigger] self.output_edge@[c].source,
            ) by {
                assert(g.readable(g.output_sources[c]));
            }
            assert(Seq::new(self.output_edge.len() as nat, |c: int| self.output_edge@[c].source)
                =~= g.output_sources);
        }
        let output_signal = self.gather_signals(&self.output_edge, &inner_signal, input);
        proof {
            assert forall|v: int| 0 <= v < self.len() implies #[trigger] inner[v] == self.unit(
                v,
            ).0.route_spec(gather(g.sources[v], inner, input@, silent_signal::<R>()), frequency) by {
                let i = lemma_order_complete(g, order@, v);
                assert(inner_signal@[order@[i] as int]@ == inner[v]);
            }
            assert(self.routed(input@, frequency, inner, output_signal@));
        }
        let result: Result<Vec<Signal<R>>, NetError> = Ok(output_signal);
        assert(result matches Ok(output) ==> self.routed(input@, frequency, inner, output@));
        result
    }

    /// Return every unit to its initial state, optionally with a new
    /// sample rate.
    pub fn reset(&mut self, sample_rate: Option<R>)
        requires
            old(self).wf(),
        ensures
            final(self).wf(),
            final(self).graph() == old(self).graph(),
            final(self).len() == old(self).len(),
            final(self).latest() == old(self).latest(),
            final(self).is_ordered() == old(self).is_ordered(),
            forall|v: int, h: Seq<Seq<T>>|
                0 <= v < old(self).len() && h.len() > 0 ==> #[trigger] final(self).unit(
                    v,
                ).0.response(h) == old(self).unit(v).0.response_after_reset(sample_rate, h),
    {
        let n = self.vertex.len();
        let mut i: usize = 0;
        while i < n
            invariant
                i <= n,
                n == self.vertex.len(),
                n == old(self).vertex.len(),
                self.wf(),
                self.graph() == old(self).graph(),
                self.latest() == old(self).latest(),
                self.ordered == old(self).ordered,
                forall|v: int, h: Seq<Seq<T>>|
                    0 <= v < i && h.len() > 0 ==> #[trigger] self.unit(v).0.response(h) == old(
                        self,
                    ).unit(v).0.response_after_reset(sample_rate, h),
                forall|v: int| i <= v < n ==> #[trigger] self.unit(v) == old(self).unit(v),
            decreases n - i,
        {
            let ghost before = *self;
            self.vertex[i].unit.0.reset(sample_rate);
            proof {
                assert forall|u: int| 0 <= u < self.vertex.len() implies (#[trigger] self.vertex@[u]).wf()
                    && self.vertex@[u].id == u by {
                    assert(before.vertex@[u].wf());
                }
                assert(self.graph().sources =~~= before.graph().sources);
                assert(self.graph().arity =~~= before.graph().arity);
                assert(self.graph().output_sources =~~= before.graph().output_sources);
                assert(self.latest() =~~= before.latest());
                assert forall|v: int, h: Seq<Seq<T>>| 0 <= v < i + 1 && h.len() > 0 implies #[trigger] self.unit(
                    v,
                ).0.response(h) == old(self).unit(v).0.response_after_reset(sample_rate, h) by {
                    if v < i {
                        assert(self.unit(v) == before.unit(v));
                    } else {
                        assert(before.unit(v) == old(self).unit(v));
                    }
                }
                assert forall|v: int| i + 1 <= v < n implies #[trigger] self.unit(v) == old(
                    self,
                ).unit(v) by {
                    assert(self.unit(v) == before.unit(v));
                }
            }
            i += 1;
        }
    }

    /// Set a parameter in every unit. Units that do not have the parameter
    /// ignore it.
    pub fn set(&mut self, parameter: Tag, value: R)
        requires
            old(self).wf(),
        ensures
            final(self).wf(),
            final(self).graph() == old(self).graph(),
            final(self).len() == old(self).len(),
            final(self).latest() == old(self).latest(),
            final(self).is_ordered() == old(self).is_ordered(),
            forall|v: int, h: Seq<Seq<T>>|
                0 <= v < old(self).len() && h.len() > 0 ==> #[trigger] final(self).unit(
                    v,
                ).0.response(h) == old(self).unit(v).0.response_after_set(parameter, value, h),
    {
        let n = self.vertex.len();
        let mut i: usize = 0;
        while i < n
            invariant
                i <= n,
                n == self.vertex.len(),
                n == old(self).vertex.len(),
                self.wf(),
                self.graph() == old(self).graph(),
                self.latest() == old(self).latest(),
                self.ordered == old(self).ordered,
                forall|v: int, h: Seq<Seq<T>>|
                    0 <= v < i && h.len() > 0 ==> #[trigger] self.unit(v).0.response(h) == old(
                        self,
                    ).unit(v).0.response_after_set(parameter, value, h),
                forall|v: int| i <= v < n ==> #[trigger] self.unit(v) == old(self).unit(v),
            decreases n - i,
        {
            let ghost before = *self;
            self.vertex[i].unit.0.set(parameter, value);
            proof {
                assert forall|u: int| 0 <= u < self.vertex.len() implies (#[trigger] self.vertex@[u]).wf()
                    && self.vertex@[u].id == u by {
                    assert(before.vertex@[u].wf());
                }
                assert(self.graph().sources =~~= before.graph().sources);
                assert(self.graph().arity =~~= before.graph().arity);
                assert(self.graph().output_sources =~~= before.graph().output_sources);
                assert(self.latest() =~~= before.latest());
                assert forall|v: int, h: Seq<Seq<T>>| 0 <= v < i + 1 && h.len() > 0 implies #[trigger] self.unit(
                    v,
                ).0.response(h) == old(self).unit(v).0.response_after_set(parameter, value, h) by {
                    if v < i {
                        assert(self.unit(v) == before.unit(v));
                    } else {
                        assert(before.unit(v) == old(self).unit(v));
                    }
                }
                assert forall|v: int| i + 1 <= v < n implies #[trigger] self.unit(v) == old(
                    self,
                ).unit(v) by {
                    assert(self.unit(v) == before.unit(v));
                }
            }
            i += 1;
        }
    }

    /// Vertex `v` is the first, in the order the units were added, whose
    /// unit has the parameter.
    pub open spec fn first_with(&self, parameter: Tag, v: int) -> bool {
        &&& 0 <= v < self.len()
        &&& self.unit(v).0.param(parameter) is Some
        &&& forall|u: int| 0 <= u < v ==> (#[trigger] self.unit(u)).0.param(parameter) is None
    }

    /// Read a parameter: the answer of the first unit, in the order the
    /// units were added, that has it.
    pub fn get(&self, parameter: Tag) -> (value: Option<R>)
        requires
            self.wf(),
        ensures
            match value {
                Some(x) => exists|v: int|
                    #[trigger] self.first_with(parameter, v) && self.unit(v).0.param(parameter)
                        == Some(x),
                None => forall|v: int|
                    0 <= v < self.len() ==> (#[trigger] self.unit(v)).0.param(parameter) is None,
            },
    {
        let n = self.vertex.len();
        let mut i: usize = 0;
        while i < n
            invariant
                i <= n,
                n == self.vertex.len(),
                self.wf(),
                forall|u: int| 0 <= u < i ==> (#[trigger] self.unit(u)).0.param(parameter) is None,
            decreases n - i,
        {
            assert(self.vertex@[i as int].wf());
            let answer = self.vertex[i].unit.0.get(parameter);
            if let Some(value) = answer {
                assert(self.first_with(parameter, i as int));
                return Some(value);
            }
            i += 1;
        }
        None
    }

    /// What each unit answers to a history.
    pub open spec fn responses(&self) -> spec_fn(int, Seq<Seq<T>>) -> Seq<T> {
        |v: int, h: Seq<Seq<T>>| self.unit(v).0.response(h)
    }

    /// What each unit answers to a history once it has been reset.
    pub open spec fn responses_after_reset(&self, sample_rate: Option<R>) -> spec_fn(
        int,
        Seq<Seq<T>>,
    ) -> Seq<T> {
        |v: int, h: Seq<Seq<T>>| self.unit(v).0.response_after_reset(sample_rate, h)
    }

    /// What each unit answers to a history once the parameter has been set.
    pub open spec fn responses_after_set(&self, parameter: Tag, value: R) -> spec_fn(
        int,
        Seq<Seq<T>>,
    ) -> Seq<T> {
        |v: int, h: Seq<Seq<T>>| self.unit(v).0.response_after_set(parameter, value, h)
    }

    /// The network is well formed and its wiring has no cycle.
    pub open spec fn runnable(&self) -> bool {
        self.wf() && !self.graph().has_cycle()
    }
}

} // verus!
